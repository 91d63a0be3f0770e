//! Merging the two ends of a short road into one intersection.
use crate::geometry::Pt2D;
use crate::ids::OriginalIntersection;
use crate::ids::OriginalRoad;
use crate::merge_laws;
use crate::order;
use crate::query;
use crate::raw::IntersectionType;
use crate::raw::RawIntersection;
use crate::raw::RawIntersectionView;
use crate::raw::RawMap;
use crate::raw::RawMapView;
use crate::raw::RawRoad;
use crate::raw::RawRoadView;
use crate::seqs;
use vstd::prelude::*;
use vstd::string::StringExecFns;

verus! {

/// Why a road cannot be merged away.
#[derive(Debug, Clone, Copy, PartialEq, Eq, Structural)]
pub enum MergeError {
    /// The road starts or ends at the border of the map.
    TouchesBorder { road: OriginalRoad },
    /// A road at one of the ends has turn restrictions.
    RestrictionFrom { road: OriginalRoad },
    /// A road has a turn restriction to a road at one of the ends.
    RestrictionBetween { from: OriginalRoad, to: OriginalRoad },
}

impl MergeError {
    /// What `message` writes.
    pub open spec fn text(self) -> Seq<char> {
        match self {
            MergeError::TouchesBorder { road } => road.text() + " touches a border"@,
            MergeError::RestrictionFrom { road } => "First deal with turn restriction from "@
                + road.text(),
            MergeError::RestrictionBetween { from, to } => "First deal with turn restriction from "@
                + from.text() + " to "@ + to.text(),
        }
    }

    /// The error in words.
    pub fn message(&self) -> (s: String)
        ensures
            s@ == self.text(),
            s@ == match *self {
                MergeError::TouchesBorder { road } => road.text() + " touches a border"@,
                MergeError::RestrictionFrom { road } => "First deal with turn restriction from "@
                    + road.text(),
                MergeError::RestrictionBetween { from, to } =>
                    "First deal with turn restriction from "@ + from.text() + " to "@ + to.text(),
            },
    {
        match self {
            MergeError::TouchesBorder { road } => {
                let mut s: String = road.to_string();
                s.append(" touches a border");
                s
            },
            MergeError::RestrictionFrom { road } => {
                let mut s: String = "First deal with turn restriction from ".to_owned();
                s.append(road.to_string().as_str());
                s
            },
            MergeError::RestrictionBetween { from, to } => {
                let mut s: String = "First deal with turn restriction from ".to_owned();
                s.append(from.to_string().as_str());
                s.append(" to ");
                s.append(to.to_string().as_str());
                s
            },
        }
    }
}

/// The road has a turn restriction to `r`.
pub open spec fn restricts(road: RawRoadView, r: OriginalRoad) -> bool {
    exists|n: int|
        0 <= n < road.turn_restrictions.len() && (#[trigger] road.turn_restrictions[n]).1 == r
}

/// The roads that have a turn restriction to `r`.
pub open spec fn restricting(
    roads: Map<OriginalRoad, RawRoadView>,
    r: OriginalRoad,
) -> spec_fn(OriginalRoad) -> bool {
    |src: OriginalRoad| restricts(roads[src], r)
}

/// What the road `r` has against a merge at one of its ends: its own turn restrictions, else the
/// first road with a restriction to it.
pub open spec fn obstacle(roads: Map<OriginalRoad, RawRoadView>, r: OriginalRoad) -> Option<
    MergeError,
> {
    let sources = order::in_order(roads.dom().filter(restricting(roads, r)));
    if roads[r].turn_restrictions.len() > 0 {
        Some(MergeError::RestrictionFrom { road: r })
    } else if sources.len() > 0 {
        Some(MergeError::RestrictionBetween { from: sources[0], to: r })
    } else {
        None
    }
}

/// The roads that have something against a merge.
pub open spec fn in_the_way(roads: Map<OriginalRoad, RawRoadView>) -> spec_fn(
    OriginalRoad,
) -> bool {
    |r: OriginalRoad| obstacle(roads, r) is Some
}

/// Why the road `id` cannot be merged away: it touches the border, else what the first road at
/// its ends has against it.
pub open spec fn merge_error(m: RawMapView, id: OriginalRoad) -> Option<MergeError> {
    let around = query::roads_at(m.roads, id.i1) + query::roads_at(m.roads, id.i2);
    let blocked = around.filter(in_the_way(m.roads));
    if m.intersections[id.i1].intersection_type == IntersectionType::Border
        || m.intersections[id.i2].intersection_type == IntersectionType::Border {
        Some(MergeError::TouchesBorder { road: id })
    } else if blocked.len() > 0 {
        obstacle(m.roads, blocked[0])
    } else {
        None
    }
}

/// The road may be merged away: neither end is a border, and no road at its ends has a turn
/// restriction or is the goal of one.
pub open spec fn mergeable(m: RawMapView, id: OriginalRoad) -> bool {
    &&& m.intersections[id.i1].intersection_type != IntersectionType::Border
    &&& m.intersections[id.i2].intersection_type != IntersectionType::Border
    &&& forall|r: OriginalRoad| #[trigger]
        m.roads.contains_key(r) && (r.touches(id.i1) || r.touches(id.i2))
            ==> m.roads[r].turn_restrictions.len() == 0
    &&& forall|src: OriginalRoad, r: OriginalRoad|
        m.roads.contains_key(src) && m.roads.contains_key(r) && (r.touches(id.i1) || r.touches(
            id.i2,
        )) ==> !(#[trigger] restricts(m.roads[src], r))
}

/// The id of the road `r` once each of its ends at `i2` is an end at `i1`.
pub open spec fn renamed(
    r: OriginalRoad,
    i1: OriginalIntersection,
    i2: OriginalIntersection,
) -> OriginalRoad {
    OriginalRoad {
        i1: if r.i1 == i2 {
            i1
        } else {
            r.i1
        },
        i2: if r.i2 == i2 {
            i1
        } else {
            r.i2
        },
        ..r
    }
}

/// `renamed` as a function of the road.
pub open spec fn renaming(i1: OriginalIntersection, i2: OriginalIntersection) -> spec_fn(
    OriginalRoad,
) -> OriginalRoad {
    |r: OriginalRoad| renamed(r, i1, i2)
}

/// The road `id` with each of its ends at `i` moved to `point`.
pub open spec fn with_all_ends_at(
    road: RawRoadView,
    id: OriginalRoad,
    i: OriginalIntersection,
    point: Pt2D,
) -> RawRoadView {
    let started = if id.i1 == i {
        road.center_points.update(0, point)
    } else {
        road.center_points
    };
    RawRoadView {
        center_points: if id.i2 == i {
            started.update(started.len() - 1, point)
        } else {
            started
        },
        ..road
    }
}

/// The roads once each of `todo` in turn has been taken out and put back under its new id, with
/// its ends at `i2` moved to `point`. A road that already had the new id gives way.
pub open spec fn reattached(
    roads: Map<OriginalRoad, RawRoadView>,
    todo: Seq<OriginalRoad>,
    i1: OriginalIntersection,
    i2: OriginalIntersection,
    point: Pt2D,
) -> Map<OriginalRoad, RawRoadView>
    decreases todo.len(),
{
    if todo.len() == 0 {
        roads
    } else {
        let r = todo.last();
        let before = reattached(roads, todo.drop_last(), i1, i2, point);
        before.remove(r).insert(renamed(r, i1, i2), with_all_ends_at(before[r], r, i2, point))
    }
}

/// The intersections once `i2` has been merged into `i1`: `i2` is gone, and where it had a traffic
/// signal, `i1` has one.
pub open spec fn merged_intersections(
    intersections: Map<OriginalIntersection, RawIntersectionView>,
    i1: OriginalIntersection,
    i2: OriginalIntersection,
) -> Map<OriginalIntersection, RawIntersectionView> {
    if intersections[i2].intersection_type == IntersectionType::TrafficSignal {
        intersections.remove(i2).insert(
            i1,
            RawIntersectionView {
                intersection_type: IntersectionType::TrafficSignal,
                ..intersections[i1]
            },
        )
    } else {
        intersections.remove(i2)
    }
}

/// The roads that change their id when `short` is merged away: all others at its second end.
pub open spec fn merge_moves(m: RawMapView, short: OriginalRoad) -> Seq<OriginalRoad> {
    query::roads_at(m.roads.remove(short), short.i2)
}

/// The map once `short` has been merged away.
pub open spec fn merge_short_road_view(m: RawMapView, short: OriginalRoad) -> RawMapView {
    RawMapView {
        roads: reattached(
            m.roads.remove(short),
            merge_moves(m, short),
            short.i1,
            short.i2,
            m.intersections[short.i1].point,
        ),
        intersections: merged_intersections(m.intersections, short.i1, short.i2),
        ..m
    }
}

/// What merging `short` away asks of the map.
pub open spec fn can_merge_view(m: RawMapView, short: OriginalRoad) -> bool {
    &&& m.roads.contains_key(short)
    &&& m.intersections.contains_key(short.i1)
    &&& m.intersections.contains_key(short.i2)
    &&& mergeable(m, short)
    &&& short.i1 == short.i2 ==> m.intersections[short.i2].intersection_type
        != IntersectionType::TrafficSignal
    &&& forall|r: OriginalRoad| #[trigger]
        m.roads.contains_key(r) && r != short && r.touches(short.i2)
            ==> m.roads[r].center_points.len() > 0
}

fn has_restriction_to(road: &RawRoad, r: OriginalRoad) -> (found: bool)
    ensures
        found == restricts(road@, r),
{
    let mut n: usize = 0;
    while n < road.turn_restrictions.len()
        invariant
            n <= road.turn_restrictions@.len(),
            forall|j: int| 0 <= j < n ==> (#[trigger] road.turn_restrictions@[j]).1 != r,
        decreases road.turn_restrictions@.len() - n,
    {
        if road.turn_restrictions[n].1 == r {
            assert(road@.turn_restrictions[n as int].1 == r);
            return true;
        }
        n += 1;
    }
    false
}

impl RawMap {
    fn find_obstacle(&self, r: OriginalRoad) -> (e: Option<MergeError>)
        requires
            self@.roads.contains_key(r),
        ensures
            e == obstacle(self@.roads, r),
    {
        if self.roads.get(&r).unwrap().turn_restrictions.len() > 0 {
            return Some(MergeError::RestrictionFrom { road: r });
        }
        let keys: Vec<OriginalRoad> = self.roads.keys();
        let ghost p = restricting(self@.roads, r);
        proof {
            order::lemma_listing_filter(keys@, self@.roads.dom(), p);
        }
        let mut n: usize = 0;
        while n < keys.len()
            invariant
                n <= keys@.len(),
                p == restricting(self@.roads, r),
                order::lists(keys@, self@.roads.dom()),
                order::in_order(self@.roads.dom().filter(p)) == keys@.filter(p),
                self@.roads[r].turn_restrictions.len() == 0,
                forall|j: int| 0 <= j < n ==> !p(#[trigger] keys@[j]),
            decreases keys@.len() - n,
        {
            proof {
                order::lemma_listing_step(keys@, self@.roads.dom(), n as int);
            }
            if has_restriction_to(self.roads.get(&keys[n]).unwrap(), r) {
                proof {
                    seqs::lemma_filter_first(keys@, p, n as int);
                }
                return Some(MergeError::RestrictionBetween { from: keys[n], to: r });
            }
            n += 1;
        }
        proof {
            seqs::lemma_filter_first(keys@, p, n as int);
        }
        None
    }

    /// Whether the road `id` can be merged away, and if not, why.
    pub fn can_merge_short_road(&self, id: OriginalRoad) -> (res: Result<(), MergeError>)
        requires
            self@.intersections.contains_key(id.i1),
            self@.intersections.contains_key(id.i2),
        ensures
            res is Ok <==> mergeable(self@, id),
            match res {
                Ok(_) => merge_error(self@, id) is None,
                Err(e) => merge_error(self@, id) == Some(e),
            },
            self.intersections@[id.i1].intersection_type == IntersectionType::Border
                || self.intersections@[id.i2].intersection_type == IntersectionType::Border
                ==> res == Err::<(), MergeError>(MergeError::TouchesBorder { road: id }),
            ({
                let roads = self.roads@;
                let border = self.intersections@[id.i1].intersection_type
                    == IntersectionType::Border || self.intersections@[id.i2].intersection_type
                    == IntersectionType::Border;
                let at_end = |r: OriginalRoad|
                    r.i1 == id.i1 || r.i2 == id.i1 || r.i1 == id.i2 || r.i2 == id.i2;
                match res {
                    Ok(_) => {
                        &&& !border
                        &&& forall|r: OriginalRoad| #[trigger]
                            roads.contains_key(r) && at_end(r)
                                ==> roads[r].turn_restrictions.len() == 0
                        &&& forall|src: OriginalRoad, n: int|
                            roads.contains_key(src) && 0 <= n
                                < roads[src].turn_restrictions.len() ==> {
                                let to = (#[trigger] roads[src].turn_restrictions[n]).1;
                                !(roads.contains_key(to) && at_end(to))
                            }
                    },
                    Err(MergeError::TouchesBorder { road }) => border && road == id,
                    Err(MergeError::RestrictionFrom { road }) => {
                        &&& !border
                        &&& roads.contains_key(road)
                        &&& at_end(road)
                        &&& roads[road].turn_restrictions.len() > 0
                    },
                    Err(MergeError::RestrictionBetween { from, to }) => {
                        &&& !border
                        &&& roads.contains_key(from)
                        &&& roads.contains_key(to)
                        &&& at_end(to)
                        &&& roads[to].turn_restrictions.len() == 0
                        &&& exists|n: int|
                            0 <= n < roads[from].turn_restrictions.len() && (
                            #[trigger] roads[from].turn_restrictions[n]).1 == to
                        &&& forall|src: OriginalRoad, n: int|
                            roads.contains_key(src) && 0 <= n
                                < roads[src].turn_restrictions.len() && (
                            #[trigger] roads[src].turn_restrictions[n]).1 == to && src != from
                                ==> order::Key::before(from, src)
                    },
                }
            }),
            res matches Err(e) ==> e is TouchesBorder || {
                let roads = self.roads@;
                let at_end = |r: OriginalRoad|
                    r.i1 == id.i1 || r.i2 == id.i1 || r.i1 == id.i2 || r.i2 == id.i2;
                let near = |r: OriginalRoad| r.i1 == id.i1 || r.i2 == id.i1;
                let first = match e {
                    MergeError::RestrictionFrom { road } => road,
                    MergeError::RestrictionBetween { from: _, to } => to,
                    MergeError::TouchesBorder { road } => road,
                };
                &&& forall|r: OriginalRoad| #[trigger]
                    roads.contains_key(r) && at_end(r) && r != first
                        && roads[r].turn_restrictions.len() > 0 ==> (near(first) || !near(r)) && (
                    near(first) == near(r) ==> order::Key::before(first, r))
                &&& forall|src: OriginalRoad, n: int|
                    roads.contains_key(src) && 0 <= n < roads[src].turn_restrictions.len() ==> {
                        let r = (#[trigger] roads[src].turn_restrictions[n]).1;
                        roads.contains_key(r) && at_end(r) && r != first ==> (near(first)
                            || !near(r)) && (near(first) == near(r) ==> order::Key::before(
                            first,
                            r,
                        ))
                    }
            },
    {
        proof {
            self.roads.lemma_finite();
            merge_laws::law_merge_error(self@, id);
        }
        let i1: &RawIntersection = self.intersections.get(&id.i1).unwrap();
        let i2: &RawIntersection = self.intersections.get(&id.i2).unwrap();
        if i1.intersection_type == IntersectionType::Border || i2.intersection_type
            == IntersectionType::Border {
            return Err(MergeError::TouchesBorder { road: id });
        }
        let mut around: Vec<OriginalRoad> = self.roads_per_intersection(id.i1);
        let mut second: Vec<OriginalRoad> = self.roads_per_intersection(id.i2);
        let ghost (near, far) = (around@, second@);
        around.append(&mut second);
        let ghost p = in_the_way(self@.roads);
        proof {
            assert forall|j: int| 0 <= j < around@.len() implies self@.roads.contains_key(
                #[trigger] around@[j],
            ) && (around@[j].touches(id.i1) || around@[j].touches(id.i2)) by {
                if j < near.len() {
                    assert(near.contains(near[j]));
                } else {
                    assert(far.contains(far[j - near.len()]));
                }
            }
        }
        let mut n: usize = 0;
        while n < around.len()
            invariant
                n <= around@.len(),
                p == in_the_way(self@.roads),
                self@.roads.dom().finite(),
                around@ == query::roads_at(self@.roads, id.i1) + query::roads_at(
                    self@.roads,
                    id.i2,
                ),
                self@.intersections[id.i1].intersection_type != IntersectionType::Border,
                self@.intersections[id.i2].intersection_type != IntersectionType::Border,
                forall|j: int|
                    0 <= j < around@.len() ==> self@.roads.contains_key(#[trigger] around@[j]) && (
                    around@[j].touches(id.i1) || around@[j].touches(id.i2)),
                forall|j: int| 0 <= j < n ==> !p(#[trigger] around@[j]),
            decreases around@.len() - n,
        {
            match self.find_obstacle(around[n]) {
                Some(e) => {
                    proof {
                        seqs::lemma_filter_first(around@, p, n as int);
                        lemma_obstacle_blocks(self@, id, around@[n as int]);
                        merge_laws::law_merge_error(self@, id);
                    }
                    return Err(e);
                },
                None => {},
            }
            n += 1;
        }
        proof {
            seqs::lemma_filter_first(around@, p, n as int);
            assert forall|r: OriginalRoad| #[trigger]
                self@.roads.contains_key(r) && (r.touches(id.i1) || r.touches(id.i2)) implies
                obstacle(self@.roads, r) is None by {
                let j = if r.touches(id.i1) {
                    assert(near.contains(r));
                    choose|j: int| 0 <= j < near.len() && near[j] == r
                } else {
                    assert(far.contains(r));
                    near.len() + choose|j: int| 0 <= j < far.len() && far[j] == r
                };
                assert(around@[j] == r);
                assert(!p(around@[j]));
            }
            assert forall|src: OriginalRoad, r: OriginalRoad|
                self@.roads.contains_key(src) && self@.roads.contains_key(r) && (r.touches(id.i1)
                    || r.touches(id.i2)) implies !(#[trigger] restricts(self@.roads[src], r)) by {
                let sources = self@.roads.dom().filter(restricting(self@.roads, r));
                order::lemma_in_order_lists(sources);
                if restricts(self@.roads[src], r) {
                    assert(sources.contains(src));
                    assert(order::in_order(sources).contains(src));
                }
            }
        }
        Ok(())
    }
}

/// A road with something against a merge stands in the way of every merge at its ends.
proof fn lemma_obstacle_blocks(m: RawMapView, id: OriginalRoad, r: OriginalRoad)
    requires
        m.roads.dom().finite(),
        m.roads.contains_key(r),
        r.touches(id.i1) || r.touches(id.i2),
        obstacle(m.roads, r) is Some,
    ensures
        !mergeable(m, id),
{
    if m.roads[r].turn_restrictions.len() == 0 {
        let sources = m.roads.dom().filter(restricting(m.roads, r));
        order::lemma_in_order_lists(sources);
        let src = order::in_order(sources)[0];
        assert(order::in_order(sources).contains(src));
        assert(restricts(m.roads[src], r));
    }
}

/// What taking roads out and putting them back leaves to be done: the roads still to come are
/// there, and each has points.
proof fn lemma_reattached_next(
    roads: Map<OriginalRoad, RawRoadView>,
    todo: Seq<OriginalRoad>,
    i1: OriginalIntersection,
    i2: OriginalIntersection,
    point: Pt2D,
    n: int,
)
    requires
        0 <= n < todo.len(),
        todo.no_duplicates(),
        forall|j: int|
            0 <= j < todo.len() ==> roads.contains_key(#[trigger] todo[j])
                && roads[todo[j]].center_points.len() > 0,
    ensures
        forall|j: int|
            n <= j < todo.len() ==> reattached(roads, todo.take(n), i1, i2, point).contains_key(
                #[trigger] todo[j],
            ) && reattached(roads, todo.take(n), i1, i2, point)[todo[j]].center_points.len() > 0,
    decreases n,
{
    if n > 0 {
        lemma_reattached_next(roads, todo, i1, i2, point, n - 1);
        assert(todo.take(n).drop_last() =~= todo.take(n - 1));
        assert(todo.take(n).last() == todo[n - 1]);
    } else {
        assert(todo.take(0) =~= Seq::empty());
    }
}

impl RawMap {
    /// Merges the road `short` away: its first end survives and takes over what was at the
    /// second. Returns the surviving intersection, the deleted intersection, the deleted roads and
    /// the new roads.
    pub fn merge_short_road(&mut self, short: OriginalRoad) -> (res: Option<
        (OriginalIntersection, OriginalIntersection, Vec<OriginalRoad>, Vec<OriginalRoad>),
    >)
        requires
            can_merge_view(old(self)@, short),
        ensures
            final(self)@ == merge_short_road_view(old(self)@, short),
            res matches Some((kept, gone, deleted, created)) && kept == short.i1 && gone == short.i2
                && deleted@ == seq![short] + merge_moves(old(self)@, short) && created@
                == merge_moves(old(self)@, short).map_values(renaming(short.i1, short.i2)),
            ({
                let was = old(self).roads@;
                let now = final(self).roads@;
                let new_id = |r: OriginalRoad|
                    OriginalRoad {
                        osm_way_id: r.osm_way_id,
                        i1: if r.i1 == short.i2 {
                            short.i1
                        } else {
                            r.i1
                        },
                        i2: if r.i2 == short.i2 {
                            short.i1
                        } else {
                            r.i2
                        },
                    };
                let moves = |r: OriginalRoad|
                    was.contains_key(r) && r != short && (r.i1 == short.i2 || r.i2 == short.i2);
                &&& forall|k: OriginalRoad| #[trigger]
                    now.contains_key(k) <==> (was.contains_key(k) && k != short && k.i1 != short.i2
                        && k.i2 != short.i2) || exists|r: OriginalRoad| #[trigger]
                        moves(r) && new_id(r) == k
                &&& forall|k: OriginalRoad| #[trigger]
                    was.contains_key(k) && k != short && k.i1 != short.i2 && k.i2 != short.i2 && (
                    forall|r: OriginalRoad| #[trigger] moves(r) ==> new_id(r) != k) ==> now[k]
                        == was[k]
                &&& forall|r: OriginalRoad| #[trigger]
                    was.contains_key(r) && moves(r) && (forall|s: OriginalRoad| #[trigger]
                        moves(s) && s != r && new_id(s) == new_id(r) ==> order::Key::before(s, r))
                        ==> {
                        let road = was[r];
                        let moved = now[new_id(r)];
                        let len = road.center_points.len();
                        &&& moved.osm_tags == road.osm_tags
                        &&& moved.turn_restrictions == road.turn_restrictions
                        &&& moved.center_points.len() == len
                        &&& forall|n: int|
                            0 <= n < len ==> #[trigger] moved.center_points[n] == (if n == 0 && r.i1
                                == short.i2 || n == len - 1 && r.i2 == short.i2 {
                                old(self).intersections@[short.i1].point
                            } else {
                                road.center_points[n]
                            })
                    }
            }),
            ({
                let was = old(self).intersections@;
                let now = final(self).intersections@;
                let border = |i: RawIntersectionView|
                    i.intersection_type == IntersectionType::Border;
                &&& forall|i: OriginalIntersection| #[trigger]
                    now.contains_key(i) <==> was.contains_key(i) && i != short.i2
                &&& forall|i: OriginalIntersection| #[trigger]
                    was.contains_key(i) && i != short.i1 && i != short.i2 ==> now[i] == was[i]
                &&& short.i1 != short.i2 ==> {
                    let kept = now[short.i1];
                    &&& kept.point == was[short.i1].point
                    &&& kept.label == was[short.i1].label
                    &&& kept.synthetic == was[short.i1].synthetic
                    &&& kept.intersection_type == if was[short.i2].intersection_type
                        == IntersectionType::TrafficSignal {
                        IntersectionType::TrafficSignal
                    } else {
                        was[short.i1].intersection_type
                    }
                }
                &&& forall|i: OriginalIntersection| #[trigger]
                    was.contains_key(i) && border(was[i]) ==> now.contains_key(i) && now[i]
                        == was[i]
                &&& forall|i: OriginalIntersection| #[trigger]
                    now.contains_key(i) && border(now[i]) ==> was.contains_key(i) && border(was[i])
            }),
            final(self).buildings@ == old(self).buildings@,
            final(self)@.areas == old(self)@.areas,
            final(self).name@ == old(self).name@,
            final(self).gps_bounds == old(self).gps_bounds,
            res matches Some((_, _, deleted, created)) && {
                &&& deleted@.len() == created@.len() + 1
                &&& deleted@[0] == short
                &&& forall|r: OriginalRoad| #[trigger]
                    deleted@.contains(r) <==> r == short || old(self).roads@.contains_key(r) && (
                    r.i1 == short.i2 || r.i2 == short.i2)
                &&& forall|a: int, b: int|
                    1 <= a < b < deleted@.len() ==> order::Key::before(
                        #[trigger] deleted@[a],
                        #[trigger] deleted@[b],
                    )
                &&& forall|n: int|
                    0 <= n < created@.len() ==> {
                        let r = deleted@[n + 1];
                        let k = #[trigger] created@[n];
                        &&& r != short
                        &&& k.osm_way_id == r.osm_way_id
                        &&& k.i1 == if r.i1 == short.i2 {
                            short.i1
                        } else {
                            r.i1
                        }
                        &&& k.i2 == if r.i2 == short.i2 {
                            short.i1
                        } else {
                            r.i2
                        }
                    }
            },
    {
        let i1: OriginalIntersection = short.i1;
        let i2: OriginalIntersection = short.i2;
        let i1_pt: Pt2D = self.intersections.get(&i1).unwrap().point;

        self.roads.remove(&short);

        // The first end is kept and the second destroyed. If the intersection types differ, the
        // survivor is upgraded.
        let gone: RawIntersection = self.intersections.remove(&i2).unwrap();
        if gone.intersection_type == IntersectionType::TrafficSignal {
            let mut kept: RawIntersection = self.intersections.remove(&i1).unwrap();
            kept.intersection_type = IntersectionType::TrafficSignal;
            self.intersections.insert(i1, kept);
        }
        proof {
            assert(self.intersections@ =~= merged_intersections(
                old(self)@.intersections,
                i1,
                i2,
            ));
        }

        // The id of each road at the second end changes, since its intersections do.
        let moves: Vec<OriginalRoad> = self.roads_per_intersection(i2);
        let ghost roads = self.roads@;
        proof {
            assert(moves@.no_duplicates()) by {
                order::lemma_increasing_distinct(moves@);
            }
            assert forall|j: int| 0 <= j < moves@.len() implies roads.contains_key(
                #[trigger] moves@[j],
            ) && roads[moves@[j]].center_points.len() > 0 && moves@[j].touches(i2) by {
                assert(moves@.contains(moves@[j]));
                assert(old(self)@.roads.contains_key(moves@[j]));
            }
            assert(moves@.take(0) =~= Seq::empty());
        }
        let mut deleted: Vec<OriginalRoad> = Vec::new();
        deleted.push(short);
        let mut created: Vec<OriginalRoad> = Vec::new();
        let mut n: usize = 0;
        while n < moves.len()
            invariant
                n <= moves@.len(),
                moves@.no_duplicates(),
                forall|j: int|
                    0 <= j < moves@.len() ==> roads.contains_key(#[trigger] moves@[j])
                        && roads[moves@[j]].center_points.len() > 0 && moves@[j].touches(i2),
                self.roads@ == reattached(roads, moves@.take(n as int), i1, i2, i1_pt),
                roads == old(self)@.roads.remove(short),
                old(self)@.roads.dom().finite(),
                can_merge_view(old(self)@, short),
                moves@ == merge_moves(old(self)@, short),
                self@ == (RawMapView {
                    roads: self@.roads,
                    intersections: merged_intersections(old(self)@.intersections, i1, i2),
                    ..old(self)@
                }),
                deleted@ =~= seq![short] + moves@.take(n as int),
                created@ =~= moves@.take(n as int).map_values(renaming(i1, i2)),
            decreases moves@.len() - n,
        {
            let r: OriginalRoad = moves[n];
            proof {
                lemma_reattached_next(roads, moves@, i1, i2, i1_pt, n as int);
                assert(moves@.take(n + 1).drop_last() =~= moves@.take(n as int));
                assert(moves@.take(n + 1).last() == r);
            }
            deleted.push(r);
            let mut road: RawRoad = self.roads.remove(&r).unwrap();
            let mut new_id: OriginalRoad = r;
            if r.i1 == i2 {
                new_id.i1 = i1;
                road.center_points[0] = i1_pt;
            }
            if r.i2 == i2 {
                new_id.i2 = i1;
                let last: usize = road.center_points.len() - 1;
                road.center_points[last] = i1_pt;
            }
            self.roads.insert(new_id, road);
            created.push(new_id);
            n += 1;
        }
        proof {
            assert(moves@.take(n as int) =~= moves@);
            merge_laws::law_merge_moves_roads(old(self)@, short);
            merge_laws::law_merge_intersections(old(self)@, short);
            assert forall|r: OriginalRoad| #[trigger]
                deleted@.contains(r) <==> r == short || old(self).roads@.contains_key(r) && (r.i1
                == short.i2 || r.i2 == short.i2) by {
                assert(moves@.contains(r) <==> roads.contains_key(r) && r.touches(i2));
                if deleted@.contains(r) && r != short {
                    let n = choose|n: int| 0 <= n < deleted@.len() && deleted@[n] == r;
                    assert(moves@[n - 1] == r);
                }
                if r == short {
                    assert(deleted@[0] == r);
                }
                if moves@.contains(r) {
                    let n = choose|n: int| 0 <= n < moves@.len() && moves@[n] == r;
                    assert(deleted@[n + 1] == r);
                }
            }
            assert forall|a: int, b: int| 1 <= a < b < deleted@.len() implies order::Key::before(
                #[trigger] deleted@[a],
                #[trigger] deleted@[b],
            ) by {
                assert(order::Key::before(moves@[a - 1], moves@[b - 1]));
            }
            assert forall|n: int| 0 <= n < created@.len() implies deleted@[n + 1] != short
                && #[trigger] created@[n] == renamed(deleted@[n + 1], i1, i2) by {
                assert(moves@[n] == deleted@[n + 1]);
                assert(moves@.contains(moves@[n]));
            }
        }
        Some((i1, i2, deleted, created))
    }
}

} // verus!
