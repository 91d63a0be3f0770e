use raw_map::geometry::Pt2D;
use raw_map::ids::OriginalIntersection;
use raw_map::sorted_map::SortedMap;
use raw_map::sorted_set::SortedSet;
use raw_map::tags::Tags;
use raw_map::value::Value;

fn node(id: i64) -> OriginalIntersection {
    OriginalIntersection { osm_node_id: id }
}

fn pt(x: i64) -> Pt2D {
    Pt2D { x, y: 0 }
}

#[test]
fn map_keeps_keys_sorted() {
    let mut m: SortedMap<OriginalIntersection, Pt2D> = SortedMap::new();
    for id in [5, -2, 9, 0, 5, 7] {
        m.insert(node(id), pt(id * 10));
    }
    assert_eq!(m.len(), 5);
    assert_eq!(m.keys(), vec![node(-2), node(0), node(5), node(7), node(9)]);
    assert_eq!(m.get(&node(7)), Some(&pt(70)));
    assert_eq!(m.get(&node(8)), None);
    m.insert(node(7), pt(1));
    assert_eq!(m.get(&node(7)), Some(&pt(1)));
    assert_eq!(m.remove(&node(0)), Some(pt(0)));
    assert_eq!(m.remove(&node(0)), None);
    assert!(!m.contains_key(&node(0)));
    assert_eq!(m.keys(), vec![node(-2), node(5), node(7), node(9)]);
}

#[test]
fn map_differences() {
    let mut a: SortedMap<OriginalIntersection, Pt2D> = SortedMap::new();
    let mut b: SortedMap<OriginalIntersection, Pt2D> = SortedMap::new();
    a.insert(node(1), pt(1));
    a.insert(node(2), pt(2));
    a.insert(node(3), pt(3));
    b.insert(node(1), pt(1));
    b.insert(node(2), pt(20));
    b.insert(node(4), pt(4));
    let d = a.changed_from(&b);
    assert_eq!(d.keys(), vec![node(2), node(3)]);
    assert_eq!(d.get(&node(2)), Some(&pt(2)));
    b.overlay(&a, &vec![node(3), node(2)]);
    assert_eq!(b.keys(), vec![node(1), node(2), node(3), node(4)]);
    assert_eq!(b.get(&node(2)), Some(&pt(2)));
    let c = b.clone();
    assert_eq!(c.keys(), b.keys());
    assert_eq!(c.get(&node(4)), Some(&pt(4)));
}

#[test]
fn sets() {
    let s = SortedSet::from_keys(&vec![node(3), node(1), node(3), node(2)]);
    assert_eq!(s.len(), 3);
    assert_eq!(s.to_vec(), vec![node(1), node(2), node(3)]);
    let t = SortedSet::from_keys(&vec![node(2), node(8)]);
    assert_eq!(s.difference(&t).to_vec(), vec![node(1), node(3)]);
    assert!(s.contains(&node(2)) && !s.contains(&node(8)));
    assert_eq!(s.clone().to_vec(), s.to_vec());
}

#[test]
fn tags_compare_by_what_they_say() {
    let mut a = Tags::new();
    let mut b = Tags::new();
    a.insert("highway".to_string(), "primary".to_string());
    a.insert("name".to_string(), "Pine".to_string());
    b.insert("name".to_string(), "Pike".to_string());
    b.insert("highway".to_string(), "primary".to_string());
    assert!(!a.same(&b));
    b.insert("name".to_string(), "Pine".to_string());
    assert!(a.same(&b));
    assert_eq!(a.get("name"), Some(&"Pine".to_string()));
    assert_eq!(a.get("lanes"), None);
    let c = a.copied();
    assert!(c.same(&a));
    assert_eq!(c.pairs().len(), 2);
    b.insert("lanes".to_string(), "2".to_string());
    assert!(!a.same(&b) && !b.same(&a));
}
