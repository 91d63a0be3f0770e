//! The raw map and what it holds.
use crate::geometry::GPSBounds;
use crate::geometry::Pt2D;
use crate::ids::OriginalBuilding;
use crate::ids::OriginalIntersection;
use crate::ids::OriginalRoad;
use crate::osm;
use crate::restriction::RestrictionType;
use crate::sorted_map::SortedMap;
use crate::tags::Tags;
use crate::value::Value;
use vstd::prelude::*;

verus! {

/// How traffic is governed at an intersection.
#[derive(Debug, Clone, Copy, PartialEq, Eq, Hash, Structural)]
pub enum IntersectionType {
    StopSign,
    TrafficSignal,
    Border,
}

/// A road before any lanes are laid out on it.
#[derive(Debug)]
pub struct RawRoad {
    /// The points of the center line, from the first intersection to the second.
    pub center_points: Vec<Pt2D>,
    pub osm_tags: Tags,
    /// What is restricted on the way from this road to another.
    pub turn_restrictions: Vec<(RestrictionType, OriginalRoad)>,
}

/// What a `RawRoad` stands for.
#[verifier::ext_equal]
pub struct RawRoadView {
    pub center_points: Seq<Pt2D>,
    pub osm_tags: Map<Seq<char>, Seq<char>>,
    pub turn_restrictions: Seq<(RestrictionType, OriginalRoad)>,
}

impl View for RawRoad {
    type V = RawRoadView;

    open spec fn view(&self) -> RawRoadView {
        RawRoadView {
            center_points: self.center_points@,
            osm_tags: self.osm_tags@,
            turn_restrictions: self.turn_restrictions@,
        }
    }
}

impl RawRoad {
    /// The road was not in the map data, but was drawn.
    pub fn synthetic(&self) -> (r: bool)
        ensures
            r <==> self@.osm_tags.contains_key(osm::SYNTHETIC@)
                && self@.osm_tags[osm::SYNTHETIC@] == "true"@,
    {
        match self.osm_tags.get(osm::SYNTHETIC) {
            Some(text) => *text == "true".to_owned(),
            None => false,
        }
    }
}

fn same_restrictions(
    a: &Vec<(RestrictionType, OriginalRoad)>,
    b: &Vec<(RestrictionType, OriginalRoad)>,
) -> (r: bool)
    ensures
        r == (a@ == b@),
{
    if a.len() != b.len() {
        return false;
    }
    let mut i: usize = 0;
    while i < a.len()
        invariant
            i <= a@.len() == b@.len(),
            forall|j: int| 0 <= j < i ==> a@[j] == b@[j],
        decreases a@.len() - i,
    {
        if a[i].0 != b[i].0 || a[i].1 != b[i].1 {
            return false;
        }
        i += 1;
    }
    assert(a@ =~= b@);
    true
}

fn copy_restrictions(a: &Vec<(RestrictionType, OriginalRoad)>) -> (r: Vec<
    (RestrictionType, OriginalRoad),
>)
    ensures
        r@ == a@,
{
    let mut r: Vec<(RestrictionType, OriginalRoad)> = Vec::new();
    let mut i: usize = 0;
    while i < a.len()
        invariant
            i <= a@.len(),
            r@ =~= a@.take(i as int),
        decreases a@.len() - i,
    {
        r.push((a[i].0, a[i].1));
        i += 1;
    }
    assert(r@ =~= a@);
    r
}

impl Value for RawRoad {
    fn same(&self, other: &Self) -> (r: bool)
        ensures
            r <==> self.center_points@ == other.center_points@ && self.osm_tags@ == other.osm_tags@
                && self.turn_restrictions@ == other.turn_restrictions@,
    {
        self.center_points.same(&other.center_points) && self.osm_tags.same(&other.osm_tags)
            && same_restrictions(&self.turn_restrictions, &other.turn_restrictions)
    }

    fn copied(&self) -> (r: Self)
        ensures
            r.center_points@ == self.center_points@,
            r.osm_tags@ == self.osm_tags@,
            r.turn_restrictions@ == self.turn_restrictions@,
    {
        RawRoad {
            center_points: self.center_points.copied(),
            osm_tags: self.osm_tags.copied(),
            turn_restrictions: copy_restrictions(&self.turn_restrictions),
        }
    }
}

impl Clone for RawRoad {
    fn clone(&self) -> (r: Self)
        ensures
            r@ == self@,
    {
        self.copied()
    }
}

impl PartialEq for RawRoad {
    fn eq(&self, other: &Self) -> (r: bool) {
        self.same(other)
    }
}

impl vstd::std_specs::cmp::PartialEqSpecImpl for RawRoad {
    open spec fn obeys_eq_spec() -> bool {
        true
    }

    open spec fn eq_spec(&self, other: &Self) -> bool {
        self@ == other@
    }
}

/// A place where roads meet.
#[derive(Debug)]
pub struct RawIntersection {
    /// The original place where the center lines meet.
    pub point: Pt2D,
    pub intersection_type: IntersectionType,
    pub label: Option<String>,
    pub synthetic: bool,
}

/// What a `RawIntersection` stands for.
#[verifier::ext_equal]
pub struct RawIntersectionView {
    pub point: Pt2D,
    pub intersection_type: IntersectionType,
    pub label: Option<Seq<char>>,
    pub synthetic: bool,
}

impl View for RawIntersection {
    type V = RawIntersectionView;

    open spec fn view(&self) -> RawIntersectionView {
        RawIntersectionView {
            point: self.point,
            intersection_type: self.intersection_type,
            label: match self.label {
                Some(l) => Some(l@),
                None => None,
            },
            synthetic: self.synthetic,
        }
    }
}

impl Value for RawIntersection {
    fn same(&self, other: &Self) -> (r: bool)
        ensures
            r <==> self.point == other.point && self.intersection_type == other.intersection_type
                && self.synthetic == other.synthetic && (match (self.label, other.label) {
                    (Some(a), Some(b)) => a@ == b@,
                    (None, None) => true,
                    _ => false,
                }),
    {
        let same_label: bool = match (&self.label, &other.label) {
            (Some(a), Some(b)) => *a == *b,
            (None, None) => true,
            _ => false,
        };
        self.point == other.point && self.intersection_type == other.intersection_type
            && same_label && self.synthetic == other.synthetic
    }

    fn copied(&self) -> (r: Self)
        ensures
            r.point == self.point,
            r.intersection_type == self.intersection_type,
            r.synthetic == self.synthetic,
            match (self.label, r.label) {
                (Some(a), Some(b)) => a@ == b@,
                (None, None) => true,
                _ => false,
            },
    {
        RawIntersection {
            point: self.point,
            intersection_type: self.intersection_type,
            label: match &self.label {
                Some(l) => Some(l.clone()),
                None => None,
            },
            synthetic: self.synthetic,
        }
    }
}

impl Clone for RawIntersection {
    fn clone(&self) -> (r: Self)
        ensures
            r@ == self@,
    {
        self.copied()
    }
}

impl PartialEq for RawIntersection {
    fn eq(&self, other: &Self) -> (r: bool) {
        self.same(other)
    }
}

impl vstd::std_specs::cmp::PartialEqSpecImpl for RawIntersection {
    open spec fn obeys_eq_spec() -> bool {
        true
    }

    open spec fn eq_spec(&self, other: &Self) -> bool {
        self@ == other@
    }
}

/// A building.
#[derive(Debug)]
pub struct RawBuilding {
    pub osm_tags: Tags,
}

/// What a `RawBuilding` stands for.
#[verifier::ext_equal]
pub struct RawBuildingView {
    pub osm_tags: Map<Seq<char>, Seq<char>>,
}

impl View for RawBuilding {
    type V = RawBuildingView;

    open spec fn view(&self) -> RawBuildingView {
        RawBuildingView { osm_tags: self.osm_tags@ }
    }
}

impl Value for RawBuilding {
    fn same(&self, other: &Self) -> (r: bool) {
        self.osm_tags.same(&other.osm_tags)
    }

    fn copied(&self) -> (r: Self) {
        RawBuilding { osm_tags: self.osm_tags.copied() }
    }
}

impl Clone for RawBuilding {
    fn clone(&self) -> (r: Self)
        ensures
            r@ == self@,
    {
        self.copied()
    }
}

/// A park, a lake or another area.
#[derive(Debug)]
pub struct RawArea {
    pub osm_tags: Tags,
    pub osm_id: i64,
}

/// What a `RawArea` stands for.
#[verifier::ext_equal]
pub struct RawAreaView {
    pub osm_tags: Map<Seq<char>, Seq<char>>,
    pub osm_id: i64,
}

impl View for RawArea {
    type V = RawAreaView;

    open spec fn view(&self) -> RawAreaView {
        RawAreaView { osm_tags: self.osm_tags@, osm_id: self.osm_id }
    }
}

impl Clone for RawArea {
    fn clone(&self) -> (r: Self)
        ensures
            r@ == self@,
    {
        RawArea { osm_tags: self.osm_tags.copied(), osm_id: self.osm_id }
    }
}

/// A map before it is turned into lanes and turns. It holds what the edits read and change;
/// outlines, routes and other things that no edit looks at stay with whoever draws the map.
#[derive(Debug)]
pub struct RawMap {
    pub name: String,
    pub roads: SortedMap<OriginalRoad, RawRoad>,
    pub intersections: SortedMap<OriginalIntersection, RawIntersection>,
    pub buildings: SortedMap<OriginalBuilding, RawBuilding>,
    pub areas: Vec<RawArea>,
    pub gps_bounds: GPSBounds,
}

/// What a `RawMap` stands for.
#[verifier::ext_equal]
pub struct RawMapView {
    pub name: Seq<char>,
    pub roads: Map<OriginalRoad, RawRoadView>,
    pub intersections: Map<OriginalIntersection, RawIntersectionView>,
    pub buildings: Map<OriginalBuilding, RawBuildingView>,
    pub areas: Seq<RawAreaView>,
    pub gps_bounds: GPSBounds,
}

impl View for RawMap {
    type V = RawMapView;

    open spec fn view(&self) -> RawMapView {
        RawMapView {
            name: self.name@,
            roads: self.roads@,
            intersections: self.intersections@,
            buildings: self.buildings@,
            areas: self.areas@.map_values(|a: RawArea| a@),
            gps_bounds: self.gps_bounds,
        }
    }
}

impl RawMap {
    /// A map that has a name and bounds, and nothing on it.
    pub fn blank(name: String, gps_bounds: GPSBounds) -> (m: RawMap)
        ensures
            m@ == (RawMapView {
                name: name@,
                roads: Map::empty(),
                intersections: Map::empty(),
                buildings: Map::empty(),
                areas: Seq::empty(),
                gps_bounds,
            }),
            m.name@ == name@,
            m.roads@.dom() == Set::<OriginalRoad>::empty(),
            m.intersections@.dom() == Set::<OriginalIntersection>::empty(),
            m.buildings@.dom() == Set::<OriginalBuilding>::empty(),
            m.areas@.len() == 0,
            m.gps_bounds == gps_bounds,
    {
        let m = RawMap {
            name,
            roads: SortedMap::new(),
            intersections: SortedMap::new(),
            buildings: SortedMap::new(),
            areas: Vec::new(),
            gps_bounds,
        };
        assert(m@.areas =~= Seq::empty());
        m
    }
}

/// A road stands for its points, its tags and its turn restrictions, all of them.
pub proof fn law_road_stands_for(r: RawRoad)
    ensures
        r@.center_points == r.center_points@,
        r@.osm_tags == r.osm_tags@,
        r@.turn_restrictions == r.turn_restrictions@,
{
}

/// An intersection stands for its point, its type, its label and whether it was drawn.
pub proof fn law_intersection_stands_for(i: RawIntersection)
    ensures
        i@.point == i.point,
        i@.intersection_type == i.intersection_type,
        i@.label is Some <==> i.label is Some,
        i.label is Some ==> i@.label->0 == i.label->0@,
        i@.synthetic == i.synthetic,
{
}

/// A map stands for all that is on it.
pub proof fn law_map_stands_for(m: RawMap)
    ensures
        m@.name == m.name@,
        m@.roads == m.roads@,
        m@.intersections == m.intersections@,
        m@.buildings == m.buildings@,
        m@.areas.len() == m.areas@.len(),
        forall|n: int|
            0 <= n < m.areas@.len() ==> (#[trigger] m@.areas[n]).osm_tags == m.areas@[n].osm_tags@
                && m@.areas[n].osm_id == m.areas@[n].osm_id,
        forall|b: RawBuilding| (#[trigger] b@).osm_tags == b.osm_tags@,
        m@.gps_bounds == m.gps_bounds,
{
}

} // verus!
