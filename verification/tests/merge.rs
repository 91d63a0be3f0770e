use raw_map::geometry::{GPSBounds, Pt2D};
use raw_map::ids::{OriginalIntersection, OriginalRoad};
use raw_map::merge::MergeError;
use raw_map::raw::{IntersectionType, RawIntersection, RawMap, RawRoad};
use raw_map::restriction::RestrictionType;
use raw_map::tags::Tags;

fn node(id: i64) -> OriginalIntersection {
    OriginalIntersection { osm_node_id: id }
}

fn road(way: i64, a: i64, b: i64) -> OriginalRoad {
    OriginalRoad { osm_way_id: way, i1: node(a), i2: node(b) }
}

fn pt(x: i64, y: i64) -> Pt2D {
    Pt2D { x, y }
}

fn add_node(m: &mut RawMap, id: i64, t: IntersectionType) {
    let i = RawIntersection { point: pt(id, 0), intersection_type: t, label: None, synthetic: false };
    m.intersections.insert(node(id), i);
}

fn add_road(m: &mut RawMap, id: OriginalRoad, middle: i64) {
    let r = RawRoad {
        center_points: vec![pt(id.i1.osm_node_id, 0), pt(middle, 7), pt(id.i2.osm_node_id, 0)],
        osm_tags: Tags::new(),
        turn_restrictions: vec![],
    };
    m.roads.insert(id, r);
}

fn restrict(m: &mut RawMap, from: OriginalRoad, to: OriginalRoad) {
    let mut r = m.roads.remove(&from).unwrap();
    r.turn_restrictions.push((RestrictionType::BanTurns, to));
    m.roads.insert(from, r);
}

/// 1 - 2 = 3 - 4 with a side road 3 - 5 and a far road 5 - 6.
fn sample() -> RawMap {
    let b = GPSBounds { min_lon: 0, min_lat: 0, max_lon: 0, max_lat: 0 };
    let mut m = RawMap::blank("sample".to_string(), b);
    for id in [1, 2, 4, 5, 6] {
        add_node(&mut m, id, IntersectionType::StopSign);
    }
    add_node(&mut m, 3, IntersectionType::TrafficSignal);
    add_road(&mut m, road(10, 1, 2), 100);
    add_road(&mut m, road(11, 2, 3), 101);
    add_road(&mut m, road(12, 3, 4), 102);
    add_road(&mut m, road(13, 5, 3), 103);
    add_road(&mut m, road(14, 5, 6), 104);
    m
}

#[test]
fn merging_moves_roads_over() {
    let mut m = sample();
    let short = road(11, 2, 3);
    assert_eq!(m.can_merge_short_road(short), Ok(()));
    let res = m.merge_short_road(short);
    assert_eq!(
        res,
        Some((
            node(2),
            node(3),
            vec![short, road(12, 3, 4), road(13, 5, 3)],
            vec![road(12, 2, 4), road(13, 5, 2)]
        ))
    );
    assert_eq!(
        m.roads.keys(),
        vec![road(10, 1, 2), road(12, 2, 4), road(13, 5, 2), road(14, 5, 6)]
    );
    assert_eq!(
        m.roads.get(&road(12, 2, 4)).unwrap().center_points,
        vec![pt(2, 0), pt(102, 7), pt(4, 0)]
    );
    assert_eq!(
        m.roads.get(&road(13, 5, 2)).unwrap().center_points,
        vec![pt(5, 0), pt(103, 7), pt(2, 0)]
    );
    assert_eq!(m.intersections.keys(), vec![node(1), node(2), node(4), node(5), node(6)]);
    assert_eq!(
        m.intersections.get(&node(2)).unwrap().intersection_type,
        IntersectionType::TrafficSignal
    );
    assert_eq!(m.intersections.get(&node(2)).unwrap().point, pt(2, 0));
    assert_eq!(m.roads_per_intersection(node(3)), vec![]);
}

#[test]
fn a_stop_sign_does_not_replace_a_signal() {
    let mut m = sample();
    m.merge_short_road(road(12, 3, 4));
    assert_eq!(
        m.intersections.get(&node(3)).unwrap().intersection_type,
        IntersectionType::TrafficSignal
    );
    assert_eq!(m.intersections.len(), 5);
}

#[test]
fn borders_stand_in_the_way() {
    let mut m = sample();
    add_node(&mut m, 4, IntersectionType::Border);
    let e = m.can_merge_short_road(road(12, 3, 4)).unwrap_err();
    assert_eq!(e, MergeError::TouchesBorder { road: road(12, 3, 4) });
    assert_eq!(
        e.message(),
        "OriginalRoad(way 12 between node 3 to 4) touches a border".to_string()
    );
    assert_eq!(m.can_merge_short_road(road(11, 2, 3)), Ok(()));
}

#[test]
fn restrictions_stand_in_the_way() {
    let mut m = sample();
    restrict(&mut m, road(12, 3, 4), road(14, 5, 6));
    let e = m.can_merge_short_road(road(11, 2, 3)).unwrap_err();
    assert_eq!(e, MergeError::RestrictionFrom { road: road(12, 3, 4) });
    assert_eq!(
        e.message(),
        "First deal with turn restriction from OriginalRoad(way 12 between node 3 to 4)".to_string()
    );

    let mut m = sample();
    restrict(&mut m, road(14, 5, 6), road(10, 1, 2));
    let e = m.can_merge_short_road(road(11, 2, 3)).unwrap_err();
    assert_eq!(
        e,
        MergeError::RestrictionBetween { from: road(14, 5, 6), to: road(10, 1, 2) }
    );
    assert_eq!(
        e.message(),
        "First deal with turn restriction from OriginalRoad(way 14 between node 5 to 6) to OriginalRoad(way 10 between node 1 to 2)"
            .to_string()
    );
    assert!(m.can_merge_short_road(road(12, 3, 4)).is_ok());
}

#[test]
fn the_first_obstacle_is_named() {
    let mut m = sample();
    // Roads at the first end come before those at the second, whatever their order on the map.
    restrict(&mut m, road(10, 1, 2), road(14, 5, 6));
    restrict(&mut m, road(12, 3, 4), road(14, 5, 6));
    let back = road(5, 4, 5);
    add_road(&mut m, back, 0);
    assert_eq!(
        m.can_merge_short_road(road(11, 2, 3)),
        Err(MergeError::RestrictionFrom { road: road(10, 1, 2) })
    );
    let mut m = sample();
    restrict(&mut m, road(14, 5, 6), road(11, 2, 3));
    add_road(&mut m, back, 0);
    restrict(&mut m, back, road(11, 2, 3));
    assert_eq!(
        m.can_merge_short_road(road(11, 2, 3)),
        Err(MergeError::RestrictionBetween { from: back, to: road(11, 2, 3) })
    );
}

#[test]
fn a_parallel_road_becomes_a_loop() {
    let mut m = sample();
    add_road(&mut m, road(20, 3, 2), 200);
    m.merge_short_road(road(11, 2, 3));
    assert_eq!(
        m.roads.get(&road(20, 2, 2)).unwrap().center_points,
        vec![pt(2, 0), pt(200, 7), pt(2, 0)]
    );
}

#[test]
fn a_loop_at_the_lost_end_moves_over() {
    let mut m = sample();
    add_road(&mut m, road(21, 3, 3), 210);
    let (_, _, deleted, created) = m.merge_short_road(road(11, 2, 3)).unwrap();
    assert_eq!(
        deleted,
        vec![road(11, 2, 3), road(12, 3, 4), road(13, 5, 3), road(21, 3, 3)]
    );
    assert_eq!(created, vec![road(12, 2, 4), road(13, 5, 2), road(21, 2, 2)]);
    assert_eq!(
        m.roads.get(&road(21, 2, 2)).unwrap().center_points,
        vec![pt(2, 0), pt(210, 7), pt(2, 0)]
    );
    assert_eq!(m.roads_per_intersection(node(3)), vec![]);
    assert!(!m.intersections.contains_key(&node(3)));
}

#[test]
fn a_clashing_id_gives_way() {
    let mut m = sample();
    add_road(&mut m, road(12, 2, 4), 999);
    m.merge_short_road(road(11, 2, 3));
    assert_eq!(
        m.roads.get(&road(12, 2, 4)).unwrap().center_points,
        vec![pt(2, 0), pt(102, 7), pt(4, 0)]
    );
    assert_eq!(m.roads.len(), 4);
}

#[test]
fn merging_a_loop_takes_its_intersection() {
    let mut m = sample();
    add_road(&mut m, road(22, 2, 2), 0);
    let res = m.merge_short_road(road(22, 2, 2)).unwrap();
    assert_eq!(res.0, node(2));
    assert_eq!(res.2, vec![road(22, 2, 2), road(10, 1, 2), road(11, 2, 3)]);
    assert_eq!(res.3, vec![road(10, 1, 2), road(11, 2, 3)]);
    assert!(!m.intersections.contains_key(&node(2)));
    assert_eq!(m.roads.len(), 5);
}
