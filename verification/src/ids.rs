//! Ids that refer to roads, intersections and buildings across many maps.
use crate::order::Key;
use crate::text;
use vstd::prelude::*;
use vstd::string::StringExecFns;

verus! {

/// A way to refer to roads across many maps: an OpenStreetMap way and the two intersections
/// between which the road runs.
#[derive(Debug, Clone, Copy, PartialEq, Eq, PartialOrd, Ord, Hash, Structural)]
pub struct OriginalRoad {
    pub osm_way_id: i64,
    pub i1: OriginalIntersection,
    pub i2: OriginalIntersection,
}

/// A way to refer to intersections across many maps: an OpenStreetMap node.
#[derive(Debug, Clone, Copy, PartialEq, Eq, PartialOrd, Ord, Hash, Structural)]
pub struct OriginalIntersection {
    pub osm_node_id: i64,
}

/// A way to refer to buildings across many maps: an OpenStreetMap way.
#[derive(Debug, Clone, Copy, PartialEq, Eq, PartialOrd, Ord, Hash, Structural)]
pub struct OriginalBuilding {
    pub osm_way_id: i64,
}

impl OriginalRoad {
    /// The road starts or ends at `i`.
    pub open spec fn touches(self, i: OriginalIntersection) -> bool {
        self.i1 == i || self.i2 == i
    }

    /// What `to_string` writes.
    pub open spec fn text(self) -> Seq<char> {
        "OriginalRoad(way "@ + text::signed(self.osm_way_id as int) + " between node "@
            + text::signed(self.i1.osm_node_id as int) + " to "@ + text::signed(
            self.i2.osm_node_id as int,
        ) + ")"@
    }

    /// The road in words, with its three ids.
    pub fn to_string(&self) -> (s: String)
        ensures
            s@ == self.text(),
            s@ == "OriginalRoad(way "@ + text::signed(self.osm_way_id as int) + " between node "@
                + text::signed(self.i1.osm_node_id as int) + " to "@ + text::signed(
                self.i2.osm_node_id as int,
            ) + ")"@,
    {
        let mut s: String = "OriginalRoad(way ".to_owned();
        s.append(text::from_i64(self.osm_way_id).as_str());
        s.append(" between node ");
        s.append(text::from_i64(self.i1.osm_node_id).as_str());
        s.append(" to ");
        s.append(text::from_i64(self.i2.osm_node_id).as_str());
        s.append(")");
        s
    }
}

impl OriginalIntersection {
    /// What `to_string` writes.
    pub open spec fn text(self) -> Seq<char> {
        "OriginalIntersection("@ + text::signed(self.osm_node_id as int) + ")"@
    }

    /// The intersection in words, with its id.
    pub fn to_string(&self) -> (s: String)
        ensures
            s@ == self.text(),
            s@ == "OriginalIntersection("@ + text::signed(self.osm_node_id as int) + ")"@,
    {
        let mut s: String = "OriginalIntersection(".to_owned();
        s.append(text::from_i64(self.osm_node_id).as_str());
        s.append(")");
        s
    }
}

impl OriginalBuilding {
    /// What `to_string` writes.
    pub open spec fn text(self) -> Seq<char> {
        "OriginalBuilding("@ + text::signed(self.osm_way_id as int) + ")"@
    }

    /// The building in words, with its id.
    pub fn to_string(&self) -> (s: String)
        ensures
            s@ == self.text(),
            s@ == "OriginalBuilding("@ + text::signed(self.osm_way_id as int) + ")"@,
    {
        let mut s: String = "OriginalBuilding(".to_owned();
        s.append(text::from_i64(self.osm_way_id).as_str());
        s.append(")");
        s
    }
}

/// Roads are ordered by way, then by first intersection, then by second.
impl Key for OriginalRoad {
    open spec fn before(self, other: Self) -> bool {
        ||| self.osm_way_id < other.osm_way_id
        ||| self.osm_way_id == other.osm_way_id && self.i1.before(other.i1)
        ||| self.osm_way_id == other.osm_way_id && self.i1 == other.i1 && self.i2.before(other.i2)
    }

    proof fn irreflexive(a: Self) {
    }

    proof fn transitive(a: Self, b: Self, c: Self) {
    }

    proof fn total(a: Self, b: Self) {
    }

    fn is_before(&self, other: &Self) -> (r: bool) {
        if self.osm_way_id != other.osm_way_id {
            self.osm_way_id < other.osm_way_id
        } else if self.i1 != other.i1 {
            self.i1.is_before(&other.i1)
        } else {
            self.i2.is_before(&other.i2)
        }
    }

    fn is_same(&self, other: &Self) -> (r: bool) {
        *self == *other
    }
}

impl Key for OriginalIntersection {
    open spec fn before(self, other: Self) -> bool {
        self.osm_node_id < other.osm_node_id
    }

    proof fn irreflexive(a: Self) {
    }

    proof fn transitive(a: Self, b: Self, c: Self) {
    }

    proof fn total(a: Self, b: Self) {
    }

    fn is_before(&self, other: &Self) -> (r: bool) {
        self.osm_node_id < other.osm_node_id
    }

    fn is_same(&self, other: &Self) -> (r: bool) {
        *self == *other
    }
}

impl Key for OriginalBuilding {
    open spec fn before(self, other: Self) -> bool {
        self.osm_way_id < other.osm_way_id
    }

    proof fn irreflexive(a: Self) {
    }

    proof fn transitive(a: Self, b: Self, c: Self) {
    }

    proof fn total(a: Self, b: Self) {
    }

    fn is_before(&self, other: &Self) -> (r: bool) {
        self.osm_way_id < other.osm_way_id
    }

    fn is_same(&self, other: &Self) -> (r: bool) {
        *self == *other
    }
}

/// Roads come in order of their ways, those of one way in order of their first intersections, and
/// those that also share that in order of their second.
pub proof fn law_road_order(a: OriginalRoad, b: OriginalRoad)
    ensures
        a.osm_way_id != b.osm_way_id ==> (a.before(b) <==> a.osm_way_id < b.osm_way_id),
        a.osm_way_id == b.osm_way_id && a.i1 != b.i1 ==> (a.before(b) <==> a.i1.osm_node_id
            < b.i1.osm_node_id),
        a.osm_way_id == b.osm_way_id && a.i1 == b.i1 ==> (a.before(b) <==> a.i2.osm_node_id
            < b.i2.osm_node_id),
{
}

/// Intersections and buildings come in order of their ids.
pub proof fn law_id_order(
    a: OriginalIntersection,
    b: OriginalIntersection,
    c: OriginalBuilding,
    d: OriginalBuilding,
)
    ensures
        a.before(b) <==> a.osm_node_id < b.osm_node_id,
        c.before(d) <==> c.osm_way_id < d.osm_way_id,
{
}

/// A road touches the two intersections between which it runs, and no other.
pub proof fn law_touches(r: OriginalRoad, i: OriginalIntersection)
    ensures
        r.touches(i) <==> r.i1 == i || r.i2 == i,
{
}

} // verus!
