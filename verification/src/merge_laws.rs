//! What holds of maps from which short roads are merged away.
use crate::geometry::Pt2D;
use crate::ids::OriginalIntersection;
use crate::ids::OriginalRoad;
use crate::laws;
use crate::merge;
use crate::order;
use crate::query;
use crate::raw::IntersectionType;
use crate::raw::RawIntersectionView;
use crate::raw::RawMapView;
use crate::raw::RawRoadView;
use crate::seqs;
use vstd::prelude::*;

verus! {

/// Some road in `todo` gets the id `k`.
pub open spec fn gets_id(
    todo: Seq<OriginalRoad>,
    i1: OriginalIntersection,
    i2: OriginalIntersection,
    k: OriginalRoad,
) -> bool {
    exists|j: int| 0 <= j < todo.len() && merge::renamed(#[trigger] todo[j], i1, i2) == k
}

/// No road after the `j`th in `todo` gets the same id.
pub open spec fn last_with_id(
    todo: Seq<OriginalRoad>,
    i1: OriginalIntersection,
    i2: OriginalIntersection,
    j: int,
) -> bool {
    forall|l: int|
        j < l < todo.len() ==> merge::renamed(#[trigger] todo[l], i1, i2) != merge::renamed(
            todo[j],
            i1,
            i2,
        )
}

/// Each of the roads in `todo` has an end at `i2`, and points.
pub open spec fn movable(
    roads: Map<OriginalRoad, RawRoadView>,
    todo: Seq<OriginalRoad>,
    i2: OriginalIntersection,
) -> bool {
    &&& todo.no_duplicates()
    &&& forall|j: int|
        0 <= j < todo.len() ==> roads.contains_key(#[trigger] todo[j])
            && roads[todo[j]].center_points.len() > 0 && todo[j].touches(i2)
}

/// What the roads look like once those in `todo` have changed their id.
pub proof fn lemma_reattached(
    roads: Map<OriginalRoad, RawRoadView>,
    todo: Seq<OriginalRoad>,
    i1: OriginalIntersection,
    i2: OriginalIntersection,
    point: Pt2D,
)
    requires
        movable(roads, todo, i2),
    ensures
        forall|k: OriginalRoad| #[trigger]
            merge::reattached(roads, todo, i1, i2, point).contains_key(k) <==> (
            roads.contains_key(k) && !todo.contains(k)) || gets_id(todo, i1, i2, k),
        forall|k: OriginalRoad|
            roads.contains_key(k) && !todo.contains(k) && !gets_id(todo, i1, i2, k)
                ==> #[trigger] merge::reattached(roads, todo, i1, i2, point)[k] == roads[k],
        forall|k: OriginalRoad| #[trigger]
            gets_id(todo, i1, i2, k) ==> exists|j: int|
                0 <= j < todo.len() && merge::renamed(#[trigger] todo[j], i1, i2) == k
                    && last_with_id(todo, i1, i2, j) && merge::reattached(
                    roads,
                    todo,
                    i1,
                    i2,
                    point,
                )[k] == merge::with_all_ends_at(roads[todo[j]], todo[j], i2, point),
    decreases todo.len(),
{
    let after = merge::reattached(roads, todo, i1, i2, point);
    if todo.len() > 0 {
        let r = todo.last();
        let n = todo.len() - 1;
        let rest = todo.drop_last();
        let before = merge::reattached(roads, rest, i1, i2, point);
        assert forall|j: int| 0 <= j < rest.len() implies roads.contains_key(#[trigger] rest[j])
            && roads[rest[j]].center_points.len() > 0 && rest[j].touches(i2) by {
            assert(rest[j] == todo[j]);
        }
        lemma_reattached(roads, rest, i1, i2, point);
        assert(todo =~= rest.push(r));
        seqs::lemma_push_contains(rest, r);
        assert(todo[n] == r);
        assert(!rest.contains(r));
        assert(!gets_id(rest, i1, i2, r)) by {
            assert forall|j: int| 0 <= j < rest.len() implies merge::renamed(
                #[trigger] rest[j],
                i1,
                i2,
            ) != r by {
                assert(rest[j] == todo[j]);
                if i1 == i2 {
                    assert(merge::renamed(rest[j], i1, i2) == rest[j]);
                    assert(rest.contains(rest[j]));
                }
            }
        }
        assert(before[r] == roads[r]);
        let id = merge::renamed(r, i1, i2);
        assert forall|k: OriginalRoad| #[trigger]
            gets_id(todo, i1, i2, k) <==> gets_id(rest, i1, i2, k) || k == id by {
            if gets_id(rest, i1, i2, k) {
                let j = choose|j: int|
                    0 <= j < rest.len() && merge::renamed(#[trigger] rest[j], i1, i2) == k;
                assert(todo[j] == rest[j]);
            }
            if gets_id(todo, i1, i2, k) {
                let j = choose|j: int|
                    0 <= j < todo.len() && merge::renamed(#[trigger] todo[j], i1, i2) == k;
                if j < n {
                    assert(todo[j] == rest[j]);
                }
            }
        }
        assert forall|k: OriginalRoad| #[trigger] gets_id(todo, i1, i2, k) implies exists|j: int|
            0 <= j < todo.len() && merge::renamed(#[trigger] todo[j], i1, i2) == k && last_with_id(
                todo,
                i1,
                i2,
                j,
            ) && after[k] == merge::with_all_ends_at(roads[todo[j]], todo[j], i2, point) by {
            if k == id {
                assert(merge::renamed(todo[n], i1, i2) == k);
                assert(last_with_id(todo, i1, i2, n));
            } else {
                assert(gets_id(rest, i1, i2, k));
                let j = choose|j: int|
                    0 <= j < rest.len() && merge::renamed(#[trigger] rest[j], i1, i2) == k
                        && last_with_id(rest, i1, i2, j) && before[k] == merge::with_all_ends_at(
                        roads[rest[j]],
                        rest[j],
                        i2,
                        point,
                    );
                assert(todo[j] == rest[j]);
                assert forall|l: int| j < l < todo.len() implies merge::renamed(
                    #[trigger] todo[l],
                    i1,
                    i2,
                ) != merge::renamed(todo[j], i1, i2) by {
                    if l < n {
                        assert(todo[l] == rest[l]);
                    }
                }
                assert(last_with_id(todo, i1, i2, j));
            }
        }
    }
}

proof fn lemma_moves(m: RawMapView, short: OriginalRoad)
    requires
        m.roads.dom().finite(),
        merge::can_merge_view(m, short),
    ensures
        movable(m.roads.remove(short), merge::merge_moves(m, short), short.i2),
        forall|r: OriginalRoad| #[trigger]
            merge::merge_moves(m, short).contains(r) <==> m.roads.contains_key(r) && r != short
                && r.touches(short.i2),
        order::is_increasing(merge::merge_moves(m, short)),
{
    let roads = m.roads.remove(short);
    let here = roads.dom().filter(query::touching(short.i2));
    order::lemma_in_order_lists(here);
    let todo = merge::merge_moves(m, short);
    order::lemma_increasing_distinct(todo);
    assert forall|r: OriginalRoad| #[trigger] todo.contains(r) <==> m.roads.contains_key(r) && r
        != short && r.touches(short.i2) by {
        assert(todo.contains(r) <==> here.contains(r));
    }
    assert forall|j: int| 0 <= j < todo.len() implies roads.contains_key(#[trigger] todo[j])
        && roads[todo[j]].center_points.len() > 0 && todo[j].touches(short.i2) by {
        assert(todo.contains(todo[j]));
        assert(m.roads.contains_key(todo[j]));
    }
}

/// Merging away a road with two distinct ends takes the second off the map, leaves no road there,
/// and keeps the map sound.
pub proof fn law_merge_keeps(m: RawMapView, short: OriginalRoad)
    requires
        m.roads.dom().finite(),
        merge::can_merge_view(m, short),
        short.i1 != short.i2,
    ensures
        !merge::merge_short_road_view(m, short).roads.contains_key(short),
        !merge::merge_short_road_view(m, short).intersections.contains_key(short.i2),
        merge::merge_short_road_view(m, short).intersections.contains_key(short.i1),
        forall|r: OriginalRoad| #[trigger]
            merge::merge_short_road_view(m, short).roads.contains_key(r) ==> !r.touches(short.i2),
        laws::ends_exist(m) ==> laws::ends_exist(merge::merge_short_road_view(m, short)),
        laws::restrictions_resolve(m) ==> laws::restrictions_resolve(
            merge::merge_short_road_view(m, short),
        ),
        laws::drawn(m) ==> laws::drawn(merge::merge_short_road_view(m, short)),
        laws::attached(m) ==> laws::attached(merge::merge_short_road_view(m, short)),
{
    let (i1, i2) = (short.i1, short.i2);
    let point = m.intersections[i1].point;
    let after = merge::merge_short_road_view(m, short);
    let roads = m.roads.remove(short);
    let todo = merge::merge_moves(m, short);
    lemma_moves(m, short);
    lemma_reattached(roads, todo, i1, i2, point);
    assert forall|k: OriginalRoad| #[trigger] after.roads.contains_key(k) implies !k.touches(i2)
        && came_from(m, after, short, k) by {
        if gets_id(todo, i1, i2, k) {
            let j = choose|j: int|
                0 <= j < todo.len() && merge::renamed(#[trigger] todo[j], i1, i2) == k
                    && after.roads[k] == merge::with_all_ends_at(
                    roads[todo[j]],
                    todo[j],
                    i2,
                    point,
                );
            assert(todo.contains(todo[j]));
            assert(comes_from(m, after, short, k, todo[j]));
        } else {
            assert(!todo.contains(k));
            assert(comes_from(m, after, short, k, k));
        }
    }
    if laws::restrictions_resolve(m) {
        assert forall|k: OriginalRoad, n: int|
            after.roads.contains_key(k) && 0 <= n
                < after.roads[k].turn_restrictions.len() implies after.roads.contains_key(
            (#[trigger] after.roads[k].turn_restrictions[n]).1,
        ) by {
            assert(came_from(m, after, short, k));
            let r = choose|r: OriginalRoad| #[trigger] comes_from(m, after, short, k, r);
            let to = m.roads[r].turn_restrictions[n].1;
            assert(m.roads.contains_key(to));
            assert(merge::restricts(m.roads[r], to));
            assert(!to.touches(i1) && !to.touches(i2));
            assert(!todo.contains(to));
        }
    }
    if laws::ends_exist(m) {
        assert forall|k: OriginalRoad| #[trigger] after.roads.contains_key(k) implies
            after.intersections.contains_key(k.i1) && after.intersections.contains_key(k.i2) by {
            assert(came_from(m, after, short, k));
            let r = choose|r: OriginalRoad| #[trigger] comes_from(m, after, short, k, r);
            assert(m.roads.contains_key(r));
        }
    }
    if laws::drawn(m) {
        assert forall|k: OriginalRoad| #[trigger] after.roads.contains_key(k) implies
            after.roads[k].center_points.len() >= 2 by {
            assert(came_from(m, after, short, k));
            let r = choose|r: OriginalRoad| #[trigger] comes_from(m, after, short, k, r);
            assert(m.roads.contains_key(r));
        }
    }
    if laws::attached(m) {
        assert forall|k: OriginalRoad| #[trigger] after.roads.contains_key(k) implies
            after.roads[k].center_points.len() >= 2 && after.roads[k].center_points.first()
            == after.intersections[k.i1].point && after.roads[k].center_points.last()
            == after.intersections[k.i2].point by {
            assert(came_from(m, after, short, k));
            let r = choose|r: OriginalRoad| #[trigger] comes_from(m, after, short, k, r);
            assert(m.roads.contains_key(r));
        }
    }
}

/// Merging a road away moves each other road at its second end over to the first: each of its ends
/// there is then an end of its id at the first intersection, and of its points only those ends
/// change, to the point of that intersection. Its tags and turn restrictions stay. Where several
/// roads get one id, the last of them in order is left; a road elsewhere stays as it is, unless one
/// of them gets its id.
pub proof fn law_merge_moves_roads(m: RawMapView, short: OriginalRoad)
    requires
        m.roads.dom().finite(),
        merge::can_merge_view(m, short),
    ensures
        ({
            let was = m.roads;
            let now = merge::merge_short_road_view(m, short).roads;
            let new_id = |r: OriginalRoad|
                OriginalRoad {
                    osm_way_id: r.osm_way_id,
                    i1: if r.i1 == short.i2 {
                        short.i1
                    } else {
                        r.i1
                    },
                    i2: if r.i2 == short.i2 {
                        short.i1
                    } else {
                        r.i2
                    },
                };
            let moves = |r: OriginalRoad|
                was.contains_key(r) && r != short && (r.i1 == short.i2 || r.i2 == short.i2);
            &&& forall|k: OriginalRoad| #[trigger]
                now.contains_key(k) <==> (was.contains_key(k) && k != short && k.i1 != short.i2
                    && k.i2 != short.i2) || exists|r: OriginalRoad| #[trigger]
                    moves(r) && new_id(r) == k
            &&& forall|k: OriginalRoad| #[trigger]
                was.contains_key(k) && k != short && k.i1 != short.i2 && k.i2 != short.i2 && (
                forall|r: OriginalRoad| #[trigger] moves(r) ==> new_id(r) != k) ==> now[k] == was[k]
            &&& forall|r: OriginalRoad| #[trigger]
                was.contains_key(r) && moves(r) && (forall|s: OriginalRoad| #[trigger]
                    moves(s) && s != r && new_id(s) == new_id(r) ==> order::Key::before(s, r))
                    ==> {
                    let road = was[r];
                    let moved = now[new_id(r)];
                    let len = road.center_points.len();
                    &&& moved.osm_tags == road.osm_tags
                    &&& moved.turn_restrictions == road.turn_restrictions
                    &&& moved.center_points.len() == len
                    &&& forall|n: int|
                        0 <= n < len ==> #[trigger] moved.center_points[n] == (if n == 0 && r.i1
                            == short.i2 || n == len - 1 && r.i2 == short.i2 {
                            m.intersections[short.i1].point
                        } else {
                            road.center_points[n]
                        })
                }
        }),
{
    let (i1, i2) = (short.i1, short.i2);
    let point = m.intersections[i1].point;
    let after = merge::merge_short_road_view(m, short);
    let roads = m.roads.remove(short);
    let todo = merge::merge_moves(m, short);
    lemma_moves(m, short);
    lemma_reattached(roads, todo, i1, i2, point);
    assert forall|r: OriginalRoad| #[trigger] todo.contains(r) implies gets_id(
        todo,
        i1,
        i2,
        merge::renamed(r, i1, i2),
    ) by {
        let n = choose|n: int| 0 <= n < todo.len() && todo[n] == r;
        assert(merge::renamed(todo[n], i1, i2) == merge::renamed(r, i1, i2));
    }
    let new_id = |r: OriginalRoad|
        OriginalRoad {
            osm_way_id: r.osm_way_id,
            i1: if r.i1 == short.i2 {
                short.i1
            } else {
                r.i1
            },
            i2: if r.i2 == short.i2 {
                short.i1
            } else {
                r.i2
            },
        };
    let moves = |r: OriginalRoad|
        m.roads.contains_key(r) && r != short && (r.i1 == short.i2 || r.i2 == short.i2);
    assert forall|r: OriginalRoad| #[trigger] moves(r) <==> todo.contains(r) by {}
    assert forall|r: OriginalRoad| #[trigger] new_id(r) == merge::renamed(r, i1, i2) by {}
    assert forall|k: OriginalRoad| #[trigger] gets_id(todo, i1, i2, k) <==> exists|r: OriginalRoad|
        #[trigger] moves(r) && new_id(r) == k by {
        if gets_id(todo, i1, i2, k) {
            let j = choose|j: int|
                0 <= j < todo.len() && merge::renamed(#[trigger] todo[j], i1, i2) == k;
            assert(todo.contains(todo[j]));
            assert(moves(todo[j]) && new_id(todo[j]) == k);
        }
    }
    assert forall|r: OriginalRoad| #[trigger]
        m.roads.contains_key(r) && moves(r) && (forall|s: OriginalRoad| #[trigger]
            moves(s) && s != r && new_id(s) == new_id(r) ==> order::Key::before(s, r)) implies
        after.roads[new_id(r)] == merge::with_all_ends_at(m.roads[r], r, i2, point) by {
        let k = new_id(r);
        assert(todo.contains(r));
        assert(gets_id(todo, i1, i2, k));
        let n = choose|n: int| 0 <= n < todo.len() && todo[n] == r;
        let j = choose|j: int|
            0 <= j < todo.len() && merge::renamed(#[trigger] todo[j], i1, i2) == k
                && last_with_id(todo, i1, i2, j) && after.roads[k] == merge::with_all_ends_at(
                roads[todo[j]],
                todo[j],
                i2,
                point,
            );
        assert(todo.contains(todo[j]));
        assert(moves(todo[j]));
        if j < n {
            assert(merge::renamed(todo[n], i1, i2) == k);
        }
        if n < j {
            assert(order::Key::before(todo[n], todo[j]));
        }
    }
}

/// Merging a road away takes its second end off the map, and of the other intersections changes at
/// most the first end, which becomes a traffic signal where the second was one. No intersection at
/// the border is kept by a merge or goes with it: those at the border are the same ones before and
/// after, and unchanged.
pub proof fn law_merge_intersections(m: RawMapView, short: OriginalRoad)
    requires
        merge::can_merge_view(m, short),
    ensures
        ({
            let was = m.intersections;
            let now = merge::merge_short_road_view(m, short).intersections;
            let border = |i: RawIntersectionView| i.intersection_type == IntersectionType::Border;
            &&& forall|i: OriginalIntersection| #[trigger]
                now.contains_key(i) <==> was.contains_key(i) && i != short.i2
            &&& forall|i: OriginalIntersection| #[trigger]
                was.contains_key(i) && i != short.i1 && i != short.i2 ==> now[i] == was[i]
            &&& short.i1 != short.i2 ==> {
                let kept = now[short.i1];
                &&& kept.point == was[short.i1].point
                &&& kept.label == was[short.i1].label
                &&& kept.synthetic == was[short.i1].synthetic
                &&& kept.intersection_type == if was[short.i2].intersection_type
                    == IntersectionType::TrafficSignal {
                    IntersectionType::TrafficSignal
                } else {
                    was[short.i1].intersection_type
                }
            }
            &&& forall|i: OriginalIntersection| #[trigger]
                was.contains_key(i) && border(was[i]) ==> now.contains_key(i) && now[i] == was[i]
            &&& forall|i: OriginalIntersection| #[trigger]
                now.contains_key(i) && border(now[i]) ==> was.contains_key(i) && border(was[i])
        }),
        merge::merge_short_road_view(m, short).buildings == m.buildings,
        merge::merge_short_road_view(m, short).areas == m.areas,
        merge::merge_short_road_view(m, short).name == m.name,
        merge::merge_short_road_view(m, short).gps_bounds == m.gps_bounds,
{
}

/// The road `k` of the merged map is the road `r` of the map before.
spec fn comes_from(
    m: RawMapView,
    after: RawMapView,
    short: OriginalRoad,
    k: OriginalRoad,
    r: OriginalRoad,
) -> bool {
    &&& m.roads.contains_key(r)
    &&& r != short
    &&& if r.touches(short.i2) {
        &&& k == merge::renamed(r, short.i1, short.i2)
        &&& after.roads[k] == merge::with_all_ends_at(
            m.roads[r],
            r,
            short.i2,
            m.intersections[short.i1].point,
        )
        &&& m.roads[r].center_points.len() > 0
    } else {
        k == r && after.roads[k] == m.roads[r]
    }
}

spec fn came_from(
    m: RawMapView,
    after: RawMapView,
    short: OriginalRoad,
    k: OriginalRoad,
) -> bool {
    exists|r: OriginalRoad| #[trigger] comes_from(m, after, short, k, r)
}

/// The ids that the roads at the second end of `short` get differ from each other and from those
/// of all other roads.
pub open spec fn no_clash(m: RawMapView, short: OriginalRoad) -> bool {
    let moves = |r: OriginalRoad| m.roads.contains_key(r) && r != short && r.touches(short.i2);
    &&& forall|r: OriginalRoad|
        moves(r) ==> !m.roads.contains_key(#[trigger] merge::renamed(r, short.i1, short.i2))
    &&& forall|r: OriginalRoad, s: OriginalRoad|
        moves(r) && moves(s) && r != s ==> #[trigger] merge::renamed(r, short.i1, short.i2)
            != #[trigger] merge::renamed(s, short.i1, short.i2)
}

/// Where no ids clash, merging a road away loses no other road: each one at its second end lives
/// on under its new id with its ends there moved, and each one elsewhere is as before.
pub proof fn law_merge_loses_no_road(m: RawMapView, short: OriginalRoad)
    requires
        m.roads.dom().finite(),
        merge::can_merge_view(m, short),
        short.i1 != short.i2,
        no_clash(m, short),
    ensures
        forall|r: OriginalRoad|
            m.roads.contains_key(r) && r != short && r.touches(short.i2)
                ==> merge::merge_short_road_view(m, short).roads.contains_key(
                #[trigger] merge::renamed(r, short.i1, short.i2),
            ) && merge::merge_short_road_view(m, short).roads[merge::renamed(
                r,
                short.i1,
                short.i2,
            )] == merge::with_all_ends_at(
                m.roads[r],
                r,
                short.i2,
                m.intersections[short.i1].point,
            ),
        forall|r: OriginalRoad| #[trigger]
            m.roads.contains_key(r) && !r.touches(short.i2) ==> merge::merge_short_road_view(
                m,
                short,
            ).roads.contains_key(r) && merge::merge_short_road_view(m, short).roads[r]
                == m.roads[r],
{
    let (i1, i2) = (short.i1, short.i2);
    let point = m.intersections[i1].point;
    let after = merge::merge_short_road_view(m, short);
    let roads = m.roads.remove(short);
    let todo = merge::merge_moves(m, short);
    lemma_moves(m, short);
    lemma_reattached(roads, todo, i1, i2, point);
    assert forall|r: OriginalRoad|
        m.roads.contains_key(r) && r != short && r.touches(i2) implies after.roads.contains_key(
        #[trigger] merge::renamed(r, i1, i2),
    ) && after.roads[merge::renamed(r, i1, i2)] == merge::with_all_ends_at(
        m.roads[r],
        r,
        i2,
        point,
    ) by {
        let k = merge::renamed(r, i1, i2);
        assert(todo.contains(r));
        let n = choose|n: int| 0 <= n < todo.len() && todo[n] == r;
        assert(merge::renamed(todo[n], i1, i2) == k);
        assert(gets_id(todo, i1, i2, k));
        let j = choose|j: int|
            0 <= j < todo.len() && merge::renamed(#[trigger] todo[j], i1, i2) == k
                && after.roads[k] == merge::with_all_ends_at(roads[todo[j]], todo[j], i2, point);
        assert(todo.contains(todo[j]));
        assert(todo[j] == r);
    }
    assert forall|r: OriginalRoad| #[trigger]
        m.roads.contains_key(r) && !r.touches(i2) implies after.roads.contains_key(r)
        && after.roads[r] == m.roads[r] by {
        assert(!todo.contains(r));
        if gets_id(todo, i1, i2, r) {
            let j = choose|j: int|
                0 <= j < todo.len() && merge::renamed(#[trigger] todo[j], i1, i2) == r;
            assert(todo.contains(todo[j]));
        }
    }
}

/// Why a road cannot be merged away: an end of it is a border, else a road at its ends has turn
/// restrictions, or is the goal of one. Of several such roads it is the first: those at the first
/// end come before the others, and among themselves they are in order. Where there is no such
/// reason, the road can be merged away.
pub proof fn law_merge_error(m: RawMapView, id: OriginalRoad)
    requires
        m.roads.dom().finite(),
    ensures
        m.intersections[id.i1].intersection_type == IntersectionType::Border
            || m.intersections[id.i2].intersection_type == IntersectionType::Border
            ==> merge::merge_error(m, id) == Some(merge::MergeError::TouchesBorder { road: id }),
        merge::merge_error(m, id) is None <==> merge::mergeable(m, id),
        ({
            let roads = m.roads;
            let border = m.intersections[id.i1].intersection_type == IntersectionType::Border
                || m.intersections[id.i2].intersection_type == IntersectionType::Border;
            let at_end = |r: OriginalRoad|
                r.i1 == id.i1 || r.i2 == id.i1 || r.i1 == id.i2 || r.i2 == id.i2;
            match merge::merge_error(m, id) {
                None => {
                    &&& !border
                    &&& forall|r: OriginalRoad| #[trigger]
                        roads.contains_key(r) && at_end(r) ==> roads[r].turn_restrictions.len() == 0
                    &&& forall|src: OriginalRoad, n: int|
                        roads.contains_key(src) && 0 <= n < roads[src].turn_restrictions.len() ==> {
                            let to = (#[trigger] roads[src].turn_restrictions[n]).1;
                            !(roads.contains_key(to) && at_end(to))
                        }
                },
                Some(merge::MergeError::TouchesBorder { road }) => border && road == id,
                Some(merge::MergeError::RestrictionFrom { road }) => {
                    &&& !border
                    &&& roads.contains_key(road)
                    &&& at_end(road)
                    &&& roads[road].turn_restrictions.len() > 0
                },
                Some(merge::MergeError::RestrictionBetween { from, to }) => {
                    &&& !border
                    &&& roads.contains_key(from)
                    &&& roads.contains_key(to)
                    &&& at_end(to)
                    &&& roads[to].turn_restrictions.len() == 0
                    &&& exists|n: int|
                        0 <= n < roads[from].turn_restrictions.len() && (
                        #[trigger] roads[from].turn_restrictions[n]).1 == to
                    &&& forall|src: OriginalRoad, n: int|
                        roads.contains_key(src) && 0 <= n < roads[src].turn_restrictions.len() && (
                        #[trigger] roads[src].turn_restrictions[n]).1 == to && src != from
                            ==> order::Key::before(from, src)
                },
            }
        }),
        merge::merge_error(m, id) matches Some(e) ==> e is TouchesBorder || {
            let roads = m.roads;
            let at_end = |r: OriginalRoad|
                r.i1 == id.i1 || r.i2 == id.i1 || r.i1 == id.i2 || r.i2 == id.i2;
            let near = |r: OriginalRoad| r.i1 == id.i1 || r.i2 == id.i1;
            let first = match e {
                merge::MergeError::RestrictionFrom { road } => road,
                merge::MergeError::RestrictionBetween { from: _, to } => to,
                merge::MergeError::TouchesBorder { road } => road,
            };
            &&& forall|r: OriginalRoad| #[trigger]
                roads.contains_key(r) && at_end(r) && r != first && roads[r].turn_restrictions.len()
                    > 0 ==> (near(first) || !near(r)) && (near(first) == near(r)
                    ==> order::Key::before(first, r))
            &&& forall|src: OriginalRoad, n: int|
                roads.contains_key(src) && 0 <= n < roads[src].turn_restrictions.len() ==> {
                    let r = (#[trigger] roads[src].turn_restrictions[n]).1;
                    roads.contains_key(r) && at_end(r) && r != first ==> (near(first) || !near(r))
                        && (near(first) == near(r) ==> order::Key::before(first, r))
                }
        },
{
    let roads = m.roads;
    let (near, far) = (query::roads_at(roads, id.i1), query::roads_at(roads, id.i2));
    let around = near + far;
    let p = merge::in_the_way(roads);
    lemma_roads_at(roads, id.i1);
    lemma_roads_at(roads, id.i2);
    assert forall|r: OriginalRoad| #[trigger] around.contains(r) <==> roads.contains_key(r) && (
    r.touches(id.i1) || r.touches(id.i2)) by {
        if near.contains(r) {
            let n = choose|n: int| 0 <= n < near.len() && near[n] == r;
            assert(around[n] == r);
        } else if far.contains(r) {
            let n = choose|n: int| 0 <= n < far.len() && far[n] == r;
            assert(around[near.len() + n] == r);
        }
        if around.contains(r) {
            let n = choose|n: int| 0 <= n < around.len() && around[n] == r;
            if n < near.len() {
                assert(near.contains(near[n]));
            } else {
                assert(far.contains(far[n - near.len()]));
            }
        }
    }
    assert forall|r: OriginalRoad|
        roads.contains_key(r) && roads[r].turn_restrictions.len() > 0 implies #[trigger] p(r) by {}
    assert forall|src: OriginalRoad, n: int|
        roads.contains_key(src) && 0 <= n < roads[src].turn_restrictions.len() implies p(
        (#[trigger] roads[src].turn_restrictions[n]).1,
    ) by {
        let r = roads[src].turn_restrictions[n].1;
        assert(merge::restricts(roads[src], r));
        lemma_obstacle(roads, r);
    }
    let n = seqs::lemma_filter_head(around, p);
    if merge::mergeable(m, id) && n < around.len() {
        assert(around.contains(around[n]));
        lemma_obstacle(roads, around[n]);
        assert(p(around[n]));
    }
    if n < around.len() {
        let r = around[n];
        assert(around.contains(r));
        lemma_obstacle(roads, r);
        assert forall|q: OriginalRoad| #[trigger]
            around.contains(q) && p(q) && q != r implies (r.touches(id.i1) || !q.touches(id.i1))
            && (r.touches(id.i1) == q.touches(id.i1) ==> order::Key::before(r, q)) by {
            if q.touches(id.i1) {
                assert(near.contains(q));
                let k = choose|k: int| 0 <= k < near.len() && near[k] == q;
                assert(around[k] == q);
                assert(n < k);
                assert(near[n] == r);
                assert(near.contains(r));
            } else {
                assert(far.contains(q));
                let k = choose|k: int| 0 <= k < far.len() && far[k] == q;
                assert(around[near.len() + k] == q);
                if !r.touches(id.i1) {
                    if n < near.len() {
                        assert(near.contains(near[n]));
                    }
                    assert(far[n - near.len()] == r);
                }
            }
        }
        assert forall|q: OriginalRoad| #[trigger]
            roads.contains_key(q) && (q.touches(id.i1) || q.touches(id.i2)) && p(q) && q
                != r implies (r.touches(id.i1) || !q.touches(id.i1)) && (r.touches(id.i1)
            == q.touches(id.i1) ==> order::Key::before(r, q)) by {
            assert(around.contains(q));
        }
    } else {
        assert forall|r: OriginalRoad| #[trigger] around.contains(r) implies !p(r) by {
            let k = choose|k: int| 0 <= k < around.len() && around[k] == r;
            assert(!p(around[k]));
        }
        assert forall|r: OriginalRoad| #[trigger]
            roads.contains_key(r) && (r.touches(id.i1) || r.touches(id.i2)) implies !p(r) by {
            assert(around.contains(r));
        }
    }
}

proof fn lemma_roads_at(roads: Map<OriginalRoad, RawRoadView>, i: OriginalIntersection)
    requires
        roads.dom().finite(),
    ensures
        order::is_increasing(query::roads_at(roads, i)),
        forall|r: OriginalRoad| #[trigger]
            query::roads_at(roads, i).contains(r) <==> roads.contains_key(r) && r.touches(i),
{
    let here = roads.dom().filter(query::touching(i));
    order::lemma_in_order_lists(here);
    assert forall|r: OriginalRoad| #[trigger]
        query::roads_at(roads, i).contains(r) <==> roads.contains_key(r) && r.touches(i) by {
        assert(order::in_order(here).contains(r) <==> here.contains(r));
    }
}

/// What a road has against a merge.
proof fn lemma_obstacle(roads: Map<OriginalRoad, RawRoadView>, r: OriginalRoad)
    requires
        roads.dom().finite(),
    ensures
        match merge::obstacle(roads, r) {
            None => roads[r].turn_restrictions.len() == 0 && forall|src: OriginalRoad| #[trigger]
                roads.contains_key(src) ==> !merge::restricts(roads[src], r),
            Some(merge::MergeError::RestrictionFrom { road }) => road == r
                && roads[r].turn_restrictions.len() > 0,
            Some(merge::MergeError::RestrictionBetween { from, to }) => {
                &&& to == r
                &&& roads[r].turn_restrictions.len() == 0
                &&& roads.contains_key(from)
                &&& merge::restricts(roads[from], r)
                &&& forall|src: OriginalRoad| #[trigger]
                    roads.contains_key(src) && merge::restricts(roads[src], r) && src != from
                        ==> order::Key::before(from, src)
            },
            Some(merge::MergeError::TouchesBorder { road }) => false,
        },
{
    let sources = roads.dom().filter(merge::restricting(roads, r));
    order::lemma_in_order_lists(sources);
    let q = order::in_order(sources);
    if q.len() > 0 {
        assert(q.contains(q[0]));
        assert(sources.contains(q[0]));
    }
    assert forall|src: OriginalRoad| #[trigger]
        roads.contains_key(src) && merge::restricts(roads[src], r) implies q.len() > 0 && (src
        == q[0] || order::Key::before(q[0], src)) by {
        assert(sources.contains(src));
        assert(q.contains(src));
        let k = choose|k: int| 0 <= k < q.len() && q[k] == src;
    }
}

} // verus!
