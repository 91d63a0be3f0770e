use raw_map::fixes::MapFixes;
use raw_map::geometry::{GPSBounds, Pt2D};
use raw_map::ids::{OriginalIntersection, OriginalRoad};
use raw_map::layers::LocatedFixes;
use raw_map::raw::{IntersectionType, RawIntersection, RawMap, RawRoad};
use raw_map::restriction::RestrictionType;
use raw_map::sorted_map::SortedMap;
use raw_map::sorted_set::SortedSet;
use raw_map::tags::Tags;

fn node(id: i64) -> OriginalIntersection {
    OriginalIntersection { osm_node_id: id }
}

fn road(way: i64, a: i64, b: i64) -> OriginalRoad {
    OriginalRoad { osm_way_id: way, i1: node(a), i2: node(b) }
}

fn pt(x: i64, y: i64) -> Pt2D {
    Pt2D { x, y }
}

fn bounds(n: u64) -> GPSBounds {
    GPSBounds { min_lon: n, min_lat: n, max_lon: n, max_lat: n }
}

fn crossing(x: i64) -> RawIntersection {
    RawIntersection {
        point: pt(x, 0),
        intersection_type: IntersectionType::StopSign,
        label: None,
        synthetic: false,
    }
}

fn line(id: OriginalRoad, to: Vec<(RestrictionType, OriginalRoad)>) -> RawRoad {
    RawRoad {
        center_points: vec![pt(id.i1.osm_node_id, 0), pt(id.i2.osm_node_id, 0)],
        osm_tags: Tags::new(),
        turn_restrictions: to,
    }
}

fn sample(name: &str) -> RawMap {
    let mut m = RawMap::blank(name.to_string(), bounds(1));
    for id in 1..6 {
        m.intersections.insert(node(id), crossing(id));
    }
    for id in [road(10, 1, 2), road(11, 2, 3), road(12, 3, 4), road(13, 4, 5)] {
        m.roads.insert(id, line(id, vec![]));
    }
    m
}

fn all(f: &MapFixes) -> SortedSet<OriginalIntersection> {
    SortedSet::from_keys(&f.override_intersections.keys())
}

fn same_network(a: &RawMap, b: &RawMap) -> bool {
    a.roads.keys() == b.roads.keys()
        && a.intersections.keys() == b.intersections.keys()
        && a.roads.keys().iter().all(|r| a.roads.get(r) == b.roads.get(r))
        && a.intersections.keys().iter().all(|i| a.intersections.get(i) == b.intersections.get(i))
}

#[test]
fn fixes_that_fit_are_applied() {
    let mut m = sample("huge_seattle");
    let gone = road(13, 4, 5);
    let mut r = m.roads.remove(&road(12, 3, 4)).unwrap();
    r.turn_restrictions.push((RestrictionType::BanTurns, gone));
    m.roads.insert(road(12, 3, 4), r);

    let mut f = MapFixes::new(bounds(1));
    f.delete_roads.insert(gone);
    f.delete_roads.insert(road(99, 1, 2));
    f.delete_intersections.insert(node(5));
    f.delete_intersections.insert(node(77));
    f.override_intersections.insert(node(2), crossing(200));
    f.override_intersections.insert(node(8), crossing(800));
    f.override_intersections.insert(node(9), crossing(900));
    let made = road(20, 1, 8);
    f.override_roads.insert(made, line(made, vec![]));
    let nowhere = road(21, 1, 9);
    f.override_roads.insert(nowhere, line(nowhere, vec![]));
    let mut in_bounds = all(&MapFixes::new(bounds(1)));
    in_bounds.insert(node(2));
    in_bounds.insert(node(8));

    assert!(m.can_apply_fixes(&f));
    let report = m.apply_fixes("huge_seattle", &f, &in_bounds);
    assert_eq!(report.applied, 5);
    assert_eq!(report.total, 9);
    assert_eq!(report.note(), "Applied 5 of 9 huge_seattle fixes".to_string());
    assert_eq!(
        report.warnings,
        vec![
            "Deleting turn restriction from other road OriginalRoad(way 12 between node 3 to 4) to OriginalRoad(way 13 between node 4 to 5)"
                .to_string()
        ]
    );
    assert_eq!(
        m.roads.keys(),
        vec![road(10, 1, 2), road(11, 2, 3), road(12, 3, 4), made]
    );
    assert_eq!(m.roads.get(&road(12, 3, 4)).unwrap().turn_restrictions, vec![]);
    assert_eq!(m.intersections.keys(), vec![node(1), node(2), node(3), node(4), node(8)]);
    assert_eq!(m.intersections.get(&node(2)).unwrap().point, pt(200, 0));

    // Once more changes nothing.
    assert!(m.can_apply_fixes(&f));
    let keys = m.roads.keys();
    let again = m.apply_fixes("huge_seattle", &f, &in_bounds);
    assert_eq!(again.applied, 3);
    assert_eq!(again.total, 9);
    assert_eq!(m.roads.keys(), keys);
    assert_eq!(m.intersections.keys(), vec![node(1), node(2), node(3), node(4), node(8)]);
}

#[test]
fn an_intersection_with_roads_cannot_be_deleted() {
    let m = sample("huge_seattle");
    let mut f = MapFixes::new(bounds(1));
    f.delete_intersections.insert(node(5));
    assert!(!m.can_apply_fixes(&f));
    f.delete_roads.insert(road(13, 4, 5));
    assert!(m.can_apply_fixes(&f));
}

#[test]
fn the_first_stuck_intersection_is_named() {
    let m = sample("huge_seattle");
    let mut f = MapFixes::new(bounds(1));
    f.delete_intersections.insert(node(0));
    f.delete_intersections.insert(node(1));
    f.delete_intersections.insert(node(3));
    f.delete_intersections.insert(node(5));
    assert_eq!(m.first_stuck(&f), Some(node(1)));
    f.delete_roads.insert(road(10, 1, 2));
    assert_eq!(m.first_stuck(&f), Some(node(3)));
    f.delete_roads.insert(road(11, 2, 3));
    assert_eq!(m.first_stuck(&f), Some(node(3)));
    f.delete_roads.insert(road(12, 3, 4));
    assert_eq!(m.first_stuck(&f), Some(node(5)));
    f.delete_roads.insert(road(13, 4, 5));
    assert_eq!(m.first_stuck(&f), None);
}

#[test]
fn empty_fixes_change_nothing() {
    let mut m = sample("huge_seattle");
    let report = m.apply_fixes("x", &MapFixes::new(bounds(1)), &SortedSet::new());
    assert_eq!(report.note(), "Applied 0 of 0 x fixes".to_string());
    assert!(same_network(&m, &sample("huge_seattle")));
    let f = m.generate_fixes(&sample("huge_seattle"), None);
    assert_eq!(f.delete_roads.len() + f.delete_intersections.len(), 0);
    assert_eq!(f.override_roads.len() + f.override_intersections.len(), 0);
    assert_eq!(f.gps_bounds, bounds(1));
}

fn edited(name: &str) -> RawMap {
    let mut m = sample(name);
    m.delete_road(road(13, 4, 5));
    m.delete_intersection(node(5));
    m.move_intersection(node(2), pt(20, 20));
    m.intersections.insert(node(-1), crossing(-1));
    let made = road(-1, 4, -1);
    m.roads.insert(made, line(made, vec![(RestrictionType::BanTurns, road(12, 3, 4))]));
    m
}

#[test]
fn recorded_edits_are_what_changed() {
    let f = edited("huge_seattle").generate_fixes(&sample("huge_seattle"), None);
    assert_eq!(f.delete_roads.to_vec(), vec![road(13, 4, 5)]);
    assert_eq!(f.delete_intersections.to_vec(), vec![node(5)]);
    assert_eq!(f.override_intersections.keys(), vec![node(-1), node(2)]);
    assert_eq!(f.override_roads.keys(), vec![road(-1, 4, -1), road(10, 1, 2), road(11, 2, 3)]);
}

#[test]
fn recorded_edits_can_be_applied() {
    let now = edited("huge_seattle");
    let mut m = sample("huge_seattle");
    let f = now.generate_fixes(&m, None);
    let in_bounds = all(&f);
    let layer = LocatedFixes { fixes: f, in_bounds };
    assert!(m.can_apply_all_fixes(Some(&layer), None));
    let done = m.apply_all_fixes(Some(&layer), None);
    assert_eq!(done.len(), 1);
    assert_eq!(done[0].note(), "Applied 7 of 7 huge_seattle fixes".to_string());
    assert!(same_network(&m, &now));
}

fn master() -> MapFixes {
    let mut f = MapFixes::new(bounds(1));
    f.delete_roads.insert(road(13, 4, 5));
    f.delete_intersections.insert(node(5));
    f.override_intersections.insert(node(1), crossing(111));
    f
}

#[test]
fn inherited_fixes_are_left_out() {
    let mut now = edited("local");
    now.intersections.insert(node(1), crossing(111));
    let f = now.generate_fixes(&sample("local"), Some(&master()));
    assert_eq!(f.delete_roads.len(), 0);
    assert_eq!(f.delete_intersections.len(), 0);
    assert_eq!(f.override_intersections.keys(), vec![node(-1), node(2)]);
    assert_eq!(f.override_roads.keys(), vec![road(-1, 4, -1), road(10, 1, 2), road(11, 2, 3)]);

    // The master fixes and then the local ones give the map back.
    let mut m = sample("local");
    let first = LocatedFixes { in_bounds: all(&master()), fixes: master() };
    let second = LocatedFixes { in_bounds: all(&f), fixes: f };
    assert!(m.can_apply_all_fixes(Some(&first), Some(&second)));
    let done = m.apply_all_fixes(Some(&first), Some(&second));
    assert_eq!(done.len(), 2);
    assert_eq!(done[0].note(), "Applied 3 of 3 huge_seattle fixes".to_string());
    assert_eq!(done[1].note(), "Applied 5 of 5 local fixes".to_string());
    assert!(same_network(&m, &now));
}

#[test]
fn a_map_with_only_master_fixes_needs_no_others() {
    let mut m = sample("local");
    let first = LocatedFixes { in_bounds: all(&master()), fixes: master() };
    let done = m.apply_all_fixes(Some(&first), None);
    assert_eq!(done[1].note(), "Applied 0 of 0 local fixes".to_string());
    let f = m.generate_fixes(&sample("local"), Some(&master()));
    assert_eq!(f.delete_roads.len() + f.delete_intersections.len(), 0);
    assert_eq!(f.override_roads.len() + f.override_intersections.len(), 0);
}

#[test]
fn which_layers_a_map_can_take() {
    let first = LocatedFixes { in_bounds: all(&master()), fixes: master() };
    assert!(sample("huge_seattle").can_apply_all_fixes(None, None));
    assert!(!sample("local").can_apply_all_fixes(None, None));
    assert!(sample("local").can_apply_all_fixes(Some(&first), None));
    // The second layer meets the map as the first one leaves it.
    let mut f = MapFixes::new(bounds(1));
    f.delete_intersections.insert(node(5));
    let second = LocatedFixes { in_bounds: SortedSet::new(), fixes: f };
    assert!(!sample("huge_seattle").can_apply_fixes(&second.fixes));
    assert!(sample("local").can_apply_all_fixes(Some(&first), Some(&second)));
    assert_eq!(sample("local").first_stuck_of_all(Some(&first), Some(&second)), None);
    // Where the first layer cannot be applied, the second is not looked at.
    let mut f = MapFixes::new(bounds(1));
    f.delete_intersections.insert(node(4));
    f.delete_intersections.insert(node(5));
    let third = LocatedFixes { in_bounds: SortedSet::new(), fixes: f };
    assert_eq!(sample("local").first_stuck_of_all(Some(&first), Some(&third)), Some(node(4)));
    assert_eq!(sample("local").first_stuck_of_all(Some(&second), Some(&third)), Some(node(5)));
    assert_eq!(sample("huge_seattle").first_stuck_of_all(Some(&first), Some(&third)), None);
    assert!(!sample("local").can_apply_all_fixes(Some(&first), Some(&third)));
    let mut m = sample("huge_seattle");
    let done = m.apply_all_fixes(None, Some(&second));
    assert_eq!(done.len(), 1);
    assert_eq!(done[0].total, 0);
}

#[test]
fn remapping_points() {
    let mut f = MapFixes::new(bounds(1));
    f.delete_roads.insert(road(13, 4, 5));
    f.override_intersections.insert(node(2), crossing(2));
    let r = road(10, 1, 2);
    f.override_roads.insert(r, line(r, vec![(RestrictionType::BanTurns, road(11, 2, 3))]));
    let mut points: SortedMap<OriginalIntersection, Pt2D> = SortedMap::new();
    points.insert(node(2), pt(5, 6));
    let mut lines: SortedMap<OriginalRoad, Vec<Pt2D>> = SortedMap::new();
    lines.insert(r, vec![pt(7, 7), pt(8, 8), pt(9, 9)]);
    f.remap_pts(bounds(2), &points, &lines);
    assert_eq!(f.gps_bounds, bounds(2));
    assert_eq!(f.override_intersections.get(&node(2)).unwrap().point, pt(5, 6));
    let line = f.override_roads.get(&r).unwrap();
    assert_eq!(line.center_points, vec![pt(7, 7), pt(8, 8), pt(9, 9)]);
    assert_eq!(line.turn_restrictions.len(), 1);
    assert_eq!(f.delete_roads.to_vec(), vec![road(13, 4, 5)]);
}

#[test]
fn applied_fixes_leave_a_sound_map() {
    let mut m = sample("huge_seattle");
    let keep = road(12, 3, 4);
    let gone = road(13, 4, 5);
    let ts = vec![(RestrictionType::BanTurns, gone), (RestrictionType::BanTurns, road(11, 2, 3))];
    m.roads.insert(keep, line(keep, ts));
    let mut f = master();
    let made = road(30, 1, 2);
    f.override_roads.insert(made, line(made, vec![(RestrictionType::OnlyAllowTurns, keep)]));
    let lost = road(31, 4, 5);
    f.override_roads.insert(lost, line(lost, vec![(RestrictionType::BanTurns, keep)]));
    m.apply_fixes("huge_seattle", &f, &all(&f));
    assert!(m.roads.contains_key(&made) && !m.roads.contains_key(&lost));
    for r in m.roads.keys() {
        assert!(m.intersections.contains_key(&r.i1) && m.intersections.contains_key(&r.i2));
        for (_, to) in &m.roads.get(&r).unwrap().turn_restrictions {
            assert!(m.roads.contains_key(to));
        }
    }
    assert_eq!(m.roads.get(&keep).unwrap().turn_restrictions.len(), 1);
}

#[test]
fn recorded_fixes_delete_nothing_that_they_make() {
    let f = edited("huge_seattle").generate_fixes(&sample("huge_seattle"), None);
    for r in f.delete_roads.to_vec() {
        assert!(!f.override_roads.contains_key(&r));
    }
    for i in f.delete_intersections.to_vec() {
        assert!(!f.override_intersections.contains_key(&i));
    }
    let copy = f.clone();
    assert_eq!(copy.delete_roads.to_vec(), f.delete_roads.to_vec());
    assert_eq!(copy.override_roads.keys(), f.override_roads.keys());
}

#[test]
fn a_master_fix_that_was_undone_comes_back() {
    // The map is as the original has it at 1, where the master fixes say otherwise.
    let now = sample("local");
    let f = now.generate_fixes(&sample("local"), Some(&master()));
    assert_eq!(f.override_intersections.len(), 0);
    let mut m = sample("local");
    let first = LocatedFixes { in_bounds: all(&master()), fixes: master() };
    let second = LocatedFixes { in_bounds: SortedSet::new(), fixes: f };
    m.apply_all_fixes(Some(&first), Some(&second));
    assert_eq!(m.intersections.get(&node(1)).unwrap().point, pt(111, 0));
    assert!(!same_network(&m, &now));
}
