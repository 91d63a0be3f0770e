//! What holds across the operations on raw maps.
use crate::edit;
use crate::geometry::Pt2D;
use crate::ids::OriginalBuilding;
use crate::ids::OriginalIntersection;
use crate::ids::OriginalRoad;
use crate::merge;
use crate::order;
use crate::raw::RawAreaView;
use crate::raw::RawMapView;
use crate::raw::RawRoadView;
use crate::restriction::RestrictionType;
use crate::seqs;
use vstd::prelude::*;

verus! {

/// Every road starts and ends at an intersection of the map.
pub open spec fn ends_exist(m: RawMapView) -> bool {
    forall|r: OriginalRoad| #[trigger]
        m.roads.contains_key(r) ==> m.intersections.contains_key(r.i1)
            && m.intersections.contains_key(r.i2)
}

/// Every turn restriction leads to a road of the map.
pub open spec fn restrictions_resolve(m: RawMapView) -> bool {
    forall|r: OriginalRoad, n: int|
        m.roads.contains_key(r) && 0 <= n < m.roads[r].turn_restrictions.len()
            ==> m.roads.contains_key((#[trigger] m.roads[r].turn_restrictions[n]).1)
}

/// Every road has a first and a last point.
pub open spec fn drawn(m: RawMapView) -> bool {
    forall|r: OriginalRoad| #[trigger]
        m.roads.contains_key(r) ==> m.roads[r].center_points.len() >= 2
}

/// Every road runs from the point of its first intersection to that of its second.
pub open spec fn attached(m: RawMapView) -> bool {
    forall|r: OriginalRoad| #[trigger]
        m.roads.contains_key(r) ==> m.roads[r].center_points.len() >= 2
            && m.roads[r].center_points.first() == m.intersections[r.i1].point
            && m.roads[r].center_points.last() == m.intersections[r.i2].point
}

/// The map without the road `r`, as deleting it leaves it.
pub open spec fn delete_road_view(m: RawMapView, r: OriginalRoad) -> RawMapView {
    RawMapView { roads: edit::without_roads(m.roads, set![r]), ..m }
}

/// The map without the intersection `i`, as deleting it leaves it.
pub open spec fn delete_intersection_view(m: RawMapView, i: OriginalIntersection) -> RawMapView {
    RawMapView { intersections: m.intersections.remove(i), ..m }
}

/// Deleting a road keeps a map sound, and leaves no turn restriction to the road.
pub proof fn law_delete_road_keeps(m: RawMapView, r: OriginalRoad)
    requires
        m.roads.contains_key(r),
    ensures
        ends_exist(m) ==> ends_exist(delete_road_view(m, r)),
        restrictions_resolve(m) ==> restrictions_resolve(delete_road_view(m, r)),
        drawn(m) ==> drawn(delete_road_view(m, r)),
        attached(m) ==> attached(delete_road_view(m, r)),
        forall|src: OriginalRoad| #[trigger]
            delete_road_view(m, r).roads.contains_key(src) ==> !merge::restricts(
                delete_road_view(m, r).roads[src],
                r,
            ),
{
    let after = delete_road_view(m, r);
    let p = edit::leads_elsewhere(set![r]);
    assert forall|src: OriginalRoad, n: int|
        after.roads.contains_key(src) && 0 <= n < after.roads[src].turn_restrictions.len() implies (
    #[trigger] after.roads[src].turn_restrictions[n]).1 != r && (restrictions_resolve(m)
        ==> m.roads.contains_key(after.roads[src].turn_restrictions[n].1)) by {
        let ts = m.roads[src].turn_restrictions;
        seqs::lemma_filter_member(ts, p, n);
        let j = choose|j: int| 0 <= j < ts.len() && ts[j] == ts.filter(p)[n];
        assert(m.roads.contains_key(src));
        if restrictions_resolve(m) {
            assert(m.roads.contains_key(m.roads[src].turn_restrictions[j].1));
        }
    }
}

/// Taking roads off leaves every other road with its center line, its tags and those of its turn
/// restrictions that lead to none of the roads taken off, in their order.
pub proof fn law_without_roads(roads: Map<OriginalRoad, RawRoadView>, gone: Set<OriginalRoad>)
    ensures
        forall|k: OriginalRoad| #[trigger]
            edit::without_roads(roads, gone).contains_key(k) <==> roads.contains_key(k)
                && !gone.contains(k),
        forall|k: OriginalRoad| #[trigger]
            roads.contains_key(k) && !gone.contains(k) ==> {
                let left = edit::without_roads(roads, gone)[k];
                &&& left.center_points == roads[k].center_points
                &&& left.osm_tags == roads[k].osm_tags
                &&& left.turn_restrictions == roads[k].turn_restrictions.filter(
                    |t: (RestrictionType, OriginalRoad)| !gone.contains(t.1),
                )
            },
{
}

/// What is said about deleting a road: first, where it has turn restrictions, that it has them, and
/// then of each restriction from another road to it, in order, between which roads it was.
pub proof fn law_deletion_notes(roads: Map<OriginalRoad, RawRoadView>, r: OriginalRoad)
    ensures
        ({
            let notes = edit::deletion_notes(roads, r);
            let hits = edit::restrictions_to(roads, r);
            let own: int = if roads[r].turn_restrictions.len() > 0 {
                1
            } else {
                0
            };
            &&& notes.len() == own + hits.len()
            &&& own == 1 ==> notes[0] == "Deleting "@ + r.text()
                + ", but note it has turn restrictions from it"@
            &&& forall|n: int|
                own <= n < notes.len() ==> #[trigger] notes[n]
                    == "Deleting turn restriction from other road "@ + hits[n - own].0.text()
                    + " to "@ + hits[n - own].2.text()
        }),
{
}

/// Deleting a road leaves every other road with its center line, its tags and those of its turn
/// restrictions that lead to another road, in their order. Nothing else on the map changes.
pub proof fn law_delete_road_spares_others(m: RawMapView, r: OriginalRoad)
    ensures
        forall|k: OriginalRoad| #[trigger]
            delete_road_view(m, r).roads.contains_key(k) <==> m.roads.contains_key(k) && k != r,
        forall|k: OriginalRoad| #[trigger]
            m.roads.contains_key(k) && k != r ==> {
                let left = delete_road_view(m, r).roads[k];
                &&& left.center_points == m.roads[k].center_points
                &&& left.osm_tags == m.roads[k].osm_tags
                &&& left.turn_restrictions == m.roads[k].turn_restrictions.filter(
                    |t: (RestrictionType, OriginalRoad)| t.1 != r,
                )
            },
        delete_road_view(m, r).intersections == m.intersections,
        delete_road_view(m, r).buildings == m.buildings,
        delete_road_view(m, r).areas == m.areas,
        delete_road_view(m, r).name == m.name,
        delete_road_view(m, r).gps_bounds == m.gps_bounds,
{
    let elsewhere = |t: (RestrictionType, OriginalRoad)| t.1 != r;
    assert forall|k: OriginalRoad| #[trigger] m.roads.contains_key(k) && k != r implies
        delete_road_view(m, r).roads[k].turn_restrictions
        == m.roads[k].turn_restrictions.filter(elsewhere) by {
        seqs::lemma_filter_agree(
            m.roads[k].turn_restrictions,
            edit::leads_elsewhere(set![r]),
            elsewhere,
        );
    }
}

/// The restrictions that deleting a road gives back come one road after the other, in increasing
/// order, and those of each road are its restrictions to the deleted road, in their order.
pub proof fn law_deleted_restrictions_in_order(
    roads: Map<OriginalRoad, RawRoadView>,
    r: OriginalRoad,
)
    requires
        roads.dom().finite(),
    ensures
        forall|n: int|
            0 <= n < edit::restrictions_to(roads, r).len() ==> {
                let t = #[trigger] edit::restrictions_to(roads, r)[n];
                t.0 != r && roads.contains_key(t.0) && t.2 == r
            },
        forall|a: int, b: int|
            0 <= a < b < edit::restrictions_to(roads, r).len() ==> {
                let s = #[trigger] edit::restrictions_to(roads, r)[a];
                let t = #[trigger] edit::restrictions_to(roads, r)[b];
                s.0 == t.0 || order::Key::before(s.0, t.0)
            },
        forall|src: OriginalRoad| #[trigger]
            roads.contains_key(src) && src != r ==> edit::restrictions_to(roads, r).filter(
                |t: (OriginalRoad, RestrictionType, OriginalRoad)| t.0 == src,
            ) == roads[src].turn_restrictions.filter(
                |t: (RestrictionType, OriginalRoad)| t.1 == r,
            ).map_values(|t: (RestrictionType, OriginalRoad)| (src, t.0, t.1)),
{
    let others = roads.dom().remove(r);
    order::lemma_in_order_lists(others);
    let q = order::in_order(others);
    order::lemma_increasing_distinct(q);
    let between = edit::restrictions_between(roads, r);
    let all = edit::restrictions_to(roads, r);
    assert forall|n: int| 0 <= n < all.len() implies {
        let t = #[trigger] all[n];
        t.0 != r && roads.contains_key(t.0) && t.2 == r
    } by {
        assert(all.contains(all[n]));
        law_deleted_restrictions(roads, r, all[n]);
    }
    lemma_sources_increase(roads, r, q);
    let owner = |t: (OriginalRoad, RestrictionType, OriginalRoad)| t.0;
    assert forall|src: OriginalRoad| #[trigger] roads.contains_key(src) && src != r implies
        all.filter(|t: (OriginalRoad, RestrictionType, OriginalRoad)| t.0 == src)
        == roads[src].turn_restrictions.filter(
        |t: (RestrictionType, OriginalRoad)| t.1 == r,
    ).map_values(|t: (RestrictionType, OriginalRoad)| (src, t.0, t.1)) by {
        let p = |t: (OriginalRoad, RestrictionType, OriginalRoad)| t.0 == src;
        let hits = |t: (RestrictionType, OriginalRoad)| t.1 == r;
        assert(others.contains(src));
        assert(q.contains(src));
        seqs::lemma_flat_map_pick(q, between, owner, src, p);
        seqs::lemma_filter_agree(roads[src].turn_restrictions, edit::leads_to(r), hits);
        assert(between(src) =~= roads[src].turn_restrictions.filter(hits).map_values(
            |t: (RestrictionType, OriginalRoad)| (src, t.0, t.1),
        ));
    }
}

proof fn lemma_sources_increase(
    roads: Map<OriginalRoad, RawRoadView>,
    r: OriginalRoad,
    q: Seq<OriginalRoad>,
)
    requires
        order::is_increasing(q),
    ensures
        forall|a: int, b: int|
            0 <= a < b < q.flat_map(edit::restrictions_between(roads, r)).len() ==> {
                let s = #[trigger] q.flat_map(edit::restrictions_between(roads, r))[a];
                let t = #[trigger] q.flat_map(edit::restrictions_between(roads, r))[b];
                s.0 == t.0 || order::Key::before(s.0, t.0)
            },
        forall|a: int|
            0 <= a < q.flat_map(edit::restrictions_between(roads, r)).len() ==> q.contains(
                (#[trigger] q.flat_map(edit::restrictions_between(roads, r))[a]).0,
            ),
    decreases q.len(),
{
    let between = edit::restrictions_between(roads, r);
    if q.len() > 0 {
        let d = q.drop_last();
        let x = q.last();
        lemma_sources_increase(roads, r, d);
        d.lemma_flat_map_push(between, x);
        assert(d.push(x) =~= q);
        seqs::lemma_push_contains(d, x);
        let all = q.flat_map(between);
        let head = d.flat_map(between);
        assert forall|a: int, b: int| 0 <= a < b < all.len() implies {
            let s = #[trigger] all[a];
            let t = #[trigger] all[b];
            s.0 == t.0 || order::Key::before(s.0, t.0)
        } by {
            if b < head.len() {
                assert(head[a] == all[a] && head[b] == all[b]);
            } else {
                assert(all[b].0 == x);
                if a < head.len() {
                    assert(d.contains(head[a].0));
                    let i = choose|i: int| 0 <= i < d.len() && d[i] == head[a].0;
                    assert(order::Key::before(q[i], q[q.len() - 1]));
                }
            }
        }
    } else {
        assert(q.map_values(between) =~= Seq::empty());
        assert(q.flat_map(between) =~= Seq::empty());
    }
}

/// Deleting a road gives back each restriction to it from another road, with the road that it came
/// from, and nothing else.
pub proof fn law_deleted_restrictions(
    roads: Map<OriginalRoad, RawRoadView>,
    r: OriginalRoad,
    t: (OriginalRoad, RestrictionType, OriginalRoad),
)
    requires
        roads.dom().finite(),
    ensures
        edit::restrictions_to(roads, r).contains(t) <==> {
            &&& t.0 != r
            &&& t.2 == r
            &&& roads.contains_key(t.0)
            &&& roads[t.0].turn_restrictions.contains((t.1, r))
        },
{
    let others = roads.dom().remove(r);
    order::lemma_in_order_lists(others);
    let q = order::in_order(others);
    let between = edit::restrictions_between(roads, r);
    seqs::lemma_flat_map_contains(q, between, t);
    assert forall|src: OriginalRoad| #[trigger]
        between(src).contains(t) <==> src == t.0 && t.2 == r
        && roads[src].turn_restrictions.contains((t.1, r)) by {
        let ts = roads[src].turn_restrictions;
        let hits = ts.filter(edit::leads_to(r));
        if between(src).contains(t) {
            let found = between(src);
            let n = choose|n: int| 0 <= n < found.len() && found[n] == t;
            seqs::lemma_filter_member(ts, edit::leads_to(r), n);
            assert(hits[n] == (t.1, r));
        }
        if src == t.0 && t.2 == r && ts.contains((t.1, r)) {
            let j = choose|j: int| 0 <= j < ts.len() && ts[j] == (t.1, r);
            broadcast use Seq::lemma_filter_contains;

            assert(hits.contains(ts[j]));
            let n = choose|n: int| 0 <= n < hits.len() && hits[n] == ts[j];
            assert(between(src)[n] == t);
        }
    }
    if q.flat_map(between).contains(t) {
        let j = choose|j: int| 0 <= j < q.len() && between(#[trigger] q[j]).contains(t);
        assert(q.contains(q[j]));
        assert(others.contains(q[j]));
    }
    if t.0 != r && t.2 == r && roads.contains_key(t.0) && roads[t.0].turn_restrictions.contains(
        (t.1, r),
    ) {
        assert(others.contains(t.0));
        assert(q.contains(t.0));
        let j = choose|j: int| 0 <= j < q.len() && q[j] == t.0;
        assert(between(q[j]).contains(t));
    }
}

/// Deleting an intersection that no road touches keeps a map sound.
pub proof fn law_delete_intersection_keeps(m: RawMapView, i: OriginalIntersection)
    requires
        forall|r: OriginalRoad| #[trigger] m.roads.contains_key(r) ==> !r.touches(i),
    ensures
        ends_exist(m) ==> ends_exist(delete_intersection_view(m, i)),
        restrictions_resolve(m) ==> restrictions_resolve(delete_intersection_view(m, i)),
        drawn(m) ==> drawn(delete_intersection_view(m, i)),
        attached(m) ==> attached(delete_intersection_view(m, i)),
{
}

/// Moving an intersection changes its point and nothing else of it, and of each road there the end
/// that is there: the first point of a road that starts there, else the last. All other points, all
/// tags and turn restrictions, and all other roads and intersections stay as they are.
pub proof fn law_move_changes(m: RawMapView, i: OriginalIntersection, point: Pt2D)
    requires
        edit::can_move(m, i),
    ensures
        forall|other: OriginalIntersection| #[trigger]
            edit::move_intersection_view(m, i, point).intersections.contains_key(other)
                <==> m.intersections.contains_key(other),
        forall|other: OriginalIntersection| #[trigger]
            m.intersections.contains_key(other) && other != i ==> edit::move_intersection_view(
                m,
                i,
                point,
            ).intersections[other] == m.intersections[other],
        ({
            let moved = edit::move_intersection_view(m, i, point).intersections[i];
            &&& moved.point == point
            &&& moved.intersection_type == m.intersections[i].intersection_type
            &&& moved.label == m.intersections[i].label
            &&& moved.synthetic == m.intersections[i].synthetic
        }),
        forall|k: OriginalRoad| #[trigger]
            edit::move_intersection_view(m, i, point).roads.contains_key(k)
                <==> m.roads.contains_key(k),
        forall|k: OriginalRoad| #[trigger]
            m.roads.contains_key(k) ==> {
                let road = m.roads[k];
                let moved = edit::move_intersection_view(m, i, point).roads[k];
                &&& moved.osm_tags == road.osm_tags
                &&& moved.turn_restrictions == road.turn_restrictions
                &&& moved.center_points.len() == road.center_points.len()
                &&& forall|n: int|
                    0 <= n < road.center_points.len() ==> #[trigger] moved.center_points[n] == (
                    if n == 0 && k.i1 == i || n == road.center_points.len() - 1 && k.i1 != i && k.i2
                        == i {
                        point
                    } else {
                        road.center_points[n]
                    })
            },
        edit::move_intersection_view(m, i, point).buildings == m.buildings,
        edit::move_intersection_view(m, i, point).areas == m.areas,
        edit::move_intersection_view(m, i, point).name == m.name,
        edit::move_intersection_view(m, i, point).gps_bounds == m.gps_bounds,
{
    assert(edit::move_intersection_view(m, i, point).roads.dom() =~= m.roads.dom());
}

/// Moving an intersection keeps a map sound. Roads stay attached where none of them leads from
/// the intersection back to itself.
pub proof fn law_move_keeps(m: RawMapView, i: OriginalIntersection, point: Pt2D)
    requires
        edit::can_move(m, i),
    ensures
        ends_exist(m) ==> ends_exist(edit::move_intersection_view(m, i, point)),
        restrictions_resolve(m) ==> restrictions_resolve(
            edit::move_intersection_view(m, i, point),
        ),
        drawn(m) ==> drawn(edit::move_intersection_view(m, i, point)),
        attached(m) && (forall|r: OriginalRoad| #[trigger]
            m.roads.contains_key(r) ==> !(r.i1 == i && r.i2 == i)) ==> attached(
            edit::move_intersection_view(m, i, point),
        ),
{
    let after = edit::move_intersection_view(m, i, point);
    assert(after.roads.dom() =~= m.roads.dom());
    assert forall|r: OriginalRoad| #[trigger] after.roads.contains_key(r) implies
        m.roads.contains_key(r) && after.roads[r].turn_restrictions == m.roads[r].turn_restrictions
        && after.roads[r].center_points.len() == m.roads[r].center_points.len() by {}
    if restrictions_resolve(m) {
        assert forall|r: OriginalRoad, n: int|
            after.roads.contains_key(r) && 0 <= n < after.roads[r].turn_restrictions.len() implies
            after.roads.contains_key((#[trigger] after.roads[r].turn_restrictions[n]).1) by {
            assert(m.roads.contains_key(r));
            assert(m.roads.contains_key(m.roads[r].turn_restrictions[n].1));
        }
    }
}

/// Of two moves of an intersection, the second counts.
pub proof fn law_move_again(m: RawMapView, i: OriginalIntersection, p: Pt2D, q: Pt2D)
    requires
        edit::can_move(m, i),
    ensures
        edit::move_intersection_view(edit::move_intersection_view(m, i, p), i, q)
            == edit::move_intersection_view(m, i, q),
{
    let once = edit::move_intersection_view(m, i, p);
    let twice = edit::move_intersection_view(once, i, q);
    let direct = edit::move_intersection_view(m, i, q);
    assert forall|r: OriginalRoad| #[trigger] m.roads.contains_key(r) implies twice.roads[r]
        == direct.roads[r] by {
        assert(once.roads.contains_key(r));
        assert(twice.roads[r].center_points =~= direct.roads[r].center_points);
    }
    assert(twice.roads =~= direct.roads);
    assert(twice.intersections =~= direct.intersections);
}

/// Moving an intersection and moving it back changes nothing, where each road there meets its point
/// at the end that moves along.
pub proof fn law_move_back(m: RawMapView, i: OriginalIntersection, p: Pt2D)
    requires
        edit::can_move(m, i),
        forall|r: OriginalRoad| #[trigger]
            m.roads.contains_key(r) && r.touches(i) ==> m.intersections[i].point == if r.i1 == i {
                m.roads[r].center_points.first()
            } else {
                m.roads[r].center_points.last()
            },
    ensures
        edit::move_intersection_view(
            edit::move_intersection_view(m, i, p),
            i,
            m.intersections[i].point,
        ) == m,
{
    law_move_again(m, i, p, m.intersections[i].point);
    let same = edit::move_intersection_view(m, i, m.intersections[i].point);
    assert forall|r: OriginalRoad| #[trigger] m.roads.contains_key(r) implies same.roads[r]
        == m.roads[r] by {
        assert(same.roads[r].center_points =~= m.roads[r].center_points);
    }
    assert(same.roads =~= m.roads);
    assert(same.intersections =~= m.intersections);
}

/// A node id is in use exactly where some intersection of the map has it.
pub proof fn law_node_id_users(m: RawMapView, id: i64)
    ensures
        m.uses_node_id(id as int) <==> m.intersections.contains_key(
            OriginalIntersection { osm_node_id: id },
        ),
{
    let i = OriginalIntersection { osm_node_id: id };
    if m.intersections.contains_key(i) {
        assert(i.osm_node_id == id);
    }
}

/// Roads, buildings and areas use way ids: the id of each is in use, and no id is that none of
/// them has.
pub proof fn law_way_id_users(m: RawMapView)
    ensures
        forall|r: OriginalRoad| #[trigger]
            m.roads.contains_key(r) ==> m.uses_way_id(r.osm_way_id as int),
        forall|b: OriginalBuilding| #[trigger]
            m.buildings.contains_key(b) ==> m.uses_way_id(b.osm_way_id as int),
        forall|n: int|
            0 <= n < m.areas.len() ==> m.uses_way_id((#[trigger] m.areas[n]).osm_id as int),
        forall|id: int| #[trigger]
            m.uses_way_id(id) ==> {
                ||| exists|r: OriginalRoad| #[trigger] m.roads.contains_key(r) && r.osm_way_id == id
                ||| exists|b: OriginalBuilding| #[trigger]
                    m.buildings.contains_key(b) && b.osm_way_id == id
                ||| exists|n: int| 0 <= n < m.areas.len() && (#[trigger] m.areas[n]).osm_id == id
            },
{
}

/// A new node id can be found from `start` down as long as there are fewer intersections than
/// ids.
pub proof fn law_node_id_to_be_had(m: RawMapView, start: int)
    requires
        m.intersections.dom().finite(),
        i64::MIN + m.intersections.dom().len() <= start,
    ensures
        exists|free: int| i64::MIN <= free <= start && !#[trigger] m.uses_node_id(free),
{
    let f = |i: OriginalIntersection| i.osm_node_id as int;
    let used = m.intersections.dom().map(f);
    vstd::set_lib::lemma_map_size_bound(m.intersections.dom(), used, f);
    let free = lemma_outside(used, i64::MIN as int, start);
    assert(!m.uses_node_id(free)) by {
        assert forall|i: OriginalIntersection| #[trigger]
            m.intersections.contains_key(i) implies i.osm_node_id != free by {
            assert(used.contains(f(i)));
        }
    }
}

/// A new way id can be found from `start` down as long as there are fewer roads, buildings and
/// areas than ids.
pub proof fn law_way_id_to_be_had(m: RawMapView, start: int)
    requires
        m.roads.dom().finite(),
        m.buildings.dom().finite(),
        i64::MIN + m.roads.dom().len() + m.buildings.dom().len() + m.areas.len() <= start,
    ensures
        exists|free: int| i64::MIN <= free <= start && !#[trigger] m.uses_way_id(free),
{
    let f = |r: OriginalRoad| r.osm_way_id as int;
    let g = |b: OriginalBuilding| b.osm_way_id as int;
    let ways = m.roads.dom().map(f);
    let buildings = m.buildings.dom().map(g);
    let ids = m.areas.map_values(|a: RawAreaView| a.osm_id as int);
    let areas = ids.to_set();
    vstd::set_lib::lemma_map_size_bound(m.roads.dom(), ways, f);
    vstd::set_lib::lemma_map_size_bound(m.buildings.dom(), buildings, g);
    vstd::seq_lib::seq_to_set_is_finite(ids);
    ids.lemma_cardinality_of_set();
    vstd::set_lib::lemma_len_union(ways, buildings);
    vstd::set_lib::lemma_len_union(ways.union(buildings), areas);
    let used = ways.union(buildings).union(areas);
    let free = lemma_outside(used, i64::MIN as int, start);
    assert(!m.uses_way_id(free)) by {
        assert forall|r: OriginalRoad| #[trigger] m.roads.contains_key(r) implies r.osm_way_id
            != free by {
            assert(ways.contains(f(r)));
        }
        assert forall|b: OriginalBuilding| #[trigger] m.buildings.contains_key(b) implies
            b.osm_way_id != free by {
            assert(buildings.contains(g(b)));
        }
        assert forall|n: int| 0 <= n < m.areas.len() implies (#[trigger] m.areas[n]).osm_id
            != free by {
            assert(ids.contains(ids[n]));
        }
    }
}

/// A set with fewer members than a range leaves out some number of the range.
proof fn lemma_outside(used: Set<int>, lo: int, hi: int) -> (free: int)
    requires
        used.finite(),
        used.len() <= hi - lo,
    ensures
        lo <= free <= hi,
        !used.contains(free),
{
    let range = vstd::set_lib::set_int_range(lo, hi + 1);
    vstd::set_lib::lemma_int_range(lo, hi + 1);
    if range.subset_of(used) {
        vstd::set_lib::lemma_len_subset(range, used);
    }
    choose|free: int| range.contains(free) && !used.contains(free)
}

} // verus!
