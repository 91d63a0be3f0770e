//! What holds of fixes that are recorded and applied.
use crate::edit;
use crate::fixes::MapFixes;
use crate::fixes::MapFixesView;
use crate::fixes;
use crate::geometry::GPSBounds;
use crate::ids::OriginalIntersection;
use crate::ids::OriginalRoad;
use crate::laws;
use crate::layers::LocatedFixes;
use crate::layers::LocatedFixesView;
use crate::layers;
use crate::order;
use crate::raw::RawMapView;
use crate::raw::RawRoadView;
use crate::restriction::RestrictionType;
use crate::seqs;
use vstd::prelude::*;

verus! {

/// Fixes stand for all that they delete, create and modify, and for their bounds.
pub proof fn law_fixes_stand_for(f: MapFixes, l: LocatedFixes)
    ensures
        f@.gps_bounds == f.gps_bounds,
        f@.delete_roads == f.delete_roads@,
        f@.delete_intersections == f.delete_intersections@,
        f@.override_intersections == f.override_intersections@,
        f@.override_roads == f.override_roads@,
        l@.fixes == l.fixes@,
        l@.in_bounds == l.in_bounds@,
{
}

/// Fixes that change nothing can be applied to every map, and change nothing.
pub proof fn law_no_fixes(
    m: RawMapView,
    gps_bounds: GPSBounds,
    in_bounds: Set<OriginalIntersection>,
)
    ensures
        fixes::appliable(m, fixes::no_fixes(gps_bounds)),
        fixes::apply_view(m, fixes::no_fixes(gps_bounds), in_bounds) == m,
{
    let f = fixes::no_fixes(gps_bounds);
    let after = fixes::apply_view(m, f, in_bounds);
    fixes::lemma_without_none(m.roads);
    assert(f.delete_roads.filter(fixes::known(m.roads)) =~= Set::empty());
    assert(after.intersections =~= m.intersections);
    assert(after.roads =~= m.roads);
}

/// Of fixes that change nothing there is nothing to report.
pub proof fn law_nothing_to_report(m: RawMapView, gps_bounds: GPSBounds)
    ensures
        fixes::applied_count(m, fixes::no_fixes(gps_bounds), Set::empty()) == 0,
        fixes::fixes_count(fixes::no_fixes(gps_bounds)) == 0,
        fixes::notes_on_deleting_all(
            m.roads,
            order::in_order(fixes::no_fixes(gps_bounds).delete_roads),
        ).len() == 0,
{
    let f = fixes::no_fixes(gps_bounds);
    let (none, nowhere) = (Set::<OriginalRoad>::empty(), Set::<OriginalIntersection>::empty());
    assert(f.delete_roads.filter(fixes::known(m.roads)) =~= none);
    assert(f.delete_intersections.filter(fixes::known(m.intersections)) =~= nowhere);
    assert(f.override_intersections.dom().filter(fixes::among(nowhere)) =~= nowhere);
    assert(f.override_roads.dom().filter(
        fixes::linked(fixes::fixed_intersections(m, f, nowhere)),
    ) =~= none);
    order::lemma_in_order_lists(none);
    if order::in_order(none).len() > 0 {
        assert(order::in_order(none).contains(order::in_order(none)[0]));
    }
}

/// Between a map and itself there is no difference.
pub proof fn law_no_difference(m: RawMapView)
    ensures
        layers::difference(m, m) == fixes::no_fixes(m.gps_bounds),
{
    let d = layers::difference(m, m);
    let f = fixes::no_fixes(m.gps_bounds);
    assert(d.delete_roads =~= f.delete_roads);
    assert(d.delete_intersections =~= f.delete_intersections);
    assert(d.override_intersections =~= f.override_intersections);
    assert(d.override_roads =~= f.override_roads);
}

/// What fixes do, key by key. `after` is the map once they have been applied. Each intersection to
/// create or modify that is in bounds is there as the fixes have it, and each road to create or
/// modify whose ends are both there, whatever becomes of the other fixes. Every other intersection
/// stays as it is unless it is to be deleted, and every other road too, aside from its restrictions
/// to roads that are deleted.
pub proof fn law_apply_key_by_key(
    m: RawMapView,
    f: MapFixesView,
    in_bounds: Set<OriginalIntersection>,
    after: RawMapView,
)
    requires
        after == fixes::apply_view(m, f, in_bounds),
    ensures
        forall|i: OriginalIntersection| #[trigger]
            f.override_intersections.contains_key(i) && in_bounds.contains(i)
                ==> after.intersections.contains_key(i) && after.intersections[i]
                == f.override_intersections[i],
        forall|i: OriginalIntersection|
            !(f.override_intersections.contains_key(i) && in_bounds.contains(i)) ==> (
            #[trigger] after.intersections.contains_key(i) <==> m.intersections.contains_key(i)
                && !f.delete_intersections.contains(i)),
        forall|i: OriginalIntersection| #[trigger]
            after.intersections.contains_key(i) && !(f.override_intersections.contains_key(i)
                && in_bounds.contains(i)) ==> after.intersections[i] == m.intersections[i],
        forall|k: OriginalRoad| #[trigger]
            f.override_roads.contains_key(k) && after.intersections.contains_key(k.i1)
                && after.intersections.contains_key(k.i2) ==> after.roads.contains_key(k)
                && after.roads[k] == f.override_roads[k],
        forall|k: OriginalRoad|
            !(f.override_roads.contains_key(k) && after.intersections.contains_key(k.i1)
                && after.intersections.contains_key(k.i2)) ==> (#[trigger] after.roads.contains_key(
                k,
            ) <==> m.roads.contains_key(k) && !f.delete_roads.contains(k)),
        forall|k: OriginalRoad| #[trigger]
            after.roads.contains_key(k) && !(f.override_roads.contains_key(k)
                && after.intersections.contains_key(k.i1) && after.intersections.contains_key(k.i2))
                ==> {
                let road = m.roads[k];
                let left = after.roads[k];
                &&& left.center_points == road.center_points
                &&& left.osm_tags == road.osm_tags
                &&& left.turn_restrictions == road.turn_restrictions.filter(
                    |t: (RestrictionType, OriginalRoad)|
                        !(m.roads.contains_key(t.1) && f.delete_roads.contains(t.1)),
                )
            },
        after.buildings == m.buildings,
        after.areas == m.areas,
        after.name == m.name,
        after.gps_bounds == m.gps_bounds,
{
    let gone = f.delete_roads.filter(fixes::known(m.roads));
    let linked = f.override_roads.filter_keys(fixes::linked(after.intersections));
    let placed = f.override_intersections.filter_keys(fixes::among(in_bounds));
    assert forall|i: OriginalIntersection| #[trigger]
        f.override_intersections.contains_key(i) && in_bounds.contains(i) implies
        placed.contains_key(i) && placed[i] == f.override_intersections[i] by {}
    assert forall|k: OriginalRoad| #[trigger]
        f.override_roads.contains_key(k) && after.intersections.contains_key(k.i1)
            && after.intersections.contains_key(k.i2) implies linked.contains_key(k) && linked[k]
        == f.override_roads[k] by {}
    laws::law_without_roads(m.roads, gone);
    assert forall|k: OriginalRoad| #[trigger]
        after.roads.contains_key(k) && !linked.contains_key(k) implies m.roads.contains_key(k)
        && !gone.contains(k) && after.roads[k].turn_restrictions
        == m.roads[k].turn_restrictions.filter(
        |t: (RestrictionType, OriginalRoad)|
            !(m.roads.contains_key(t.1) && f.delete_roads.contains(t.1)),
    ) by {
        seqs::lemma_filter_agree(
            m.roads[k].turn_restrictions,
            edit::leads_elsewhere(gone),
            |t: (RestrictionType, OriginalRoad)|
                !(m.roads.contains_key(t.1) && f.delete_roads.contains(t.1)),
        );
    }
}

/// How many fixes count as applied: the roads and intersections to delete that are there, the
/// intersections to create or modify that are in bounds, and the roads to create or modify whose
/// ends are both there afterwards.
pub proof fn law_applied_count(
    m: RawMapView,
    f: MapFixesView,
    in_bounds: Set<OriginalIntersection>,
    after: RawMapView,
)
    requires
        after == fixes::apply_view(m, f, in_bounds),
    ensures
        fixes::applied_count(m, f, in_bounds) == f.delete_roads.filter(
            |r: OriginalRoad| m.roads.contains_key(r),
        ).len() + f.delete_intersections.filter(
            |i: OriginalIntersection| m.intersections.contains_key(i),
        ).len() + f.override_intersections.dom().filter(
            |i: OriginalIntersection| in_bounds.contains(i),
        ).len() + f.override_roads.dom().filter(
            |r: OriginalRoad|
                after.intersections.contains_key(r.i1) && after.intersections.contains_key(r.i2),
        ).len(),
        fixes::fixes_count(f) == f.delete_roads.len() + f.delete_intersections.len()
            + f.override_intersections.dom().len() + f.override_roads.dom().len(),
{
    assert(f.delete_roads.filter(fixes::known(m.roads)) =~= f.delete_roads.filter(
        |r: OriginalRoad| m.roads.contains_key(r),
    ));
    assert(f.delete_intersections.filter(fixes::known(m.intersections))
        =~= f.delete_intersections.filter(
        |i: OriginalIntersection| m.intersections.contains_key(i),
    ));
    assert(f.override_intersections.dom().filter(fixes::among(in_bounds))
        =~= f.override_intersections.dom().filter(
        |i: OriginalIntersection| in_bounds.contains(i),
    ));
    assert(f.override_roads.dom().filter(fixes::linked(after.intersections))
        =~= f.override_roads.dom().filter(
        |r: OriginalRoad|
            after.intersections.contains_key(r.i1) && after.intersections.contains_key(r.i2),
    ));
}

/// What is said about the roads that fixes delete: nothing where there are none, and with one road
/// more to delete, what was said without it and then what there is to say about deleting it from
/// the map that the others have left, if it is on the map.
pub proof fn law_fix_warnings(
    roads: Map<OriginalRoad, RawRoadView>,
    todo: Seq<OriginalRoad>,
    r: OriginalRoad,
)
    ensures
        fixes::notes_on_deleting_all(roads, Seq::empty()) == Seq::<Seq<char>>::empty(),
        roads.contains_key(r) ==> fixes::notes_on_deleting_all(roads, todo.push(r))
            == fixes::notes_on_deleting_all(roads, todo) + edit::deletion_notes(
            edit::without_roads(
                roads,
                Set::new(|k: OriginalRoad| todo.contains(k) && roads.contains_key(k)),
            ),
            r,
        ),
        !roads.contains_key(r) ==> fixes::notes_on_deleting_all(roads, todo.push(r))
            == fixes::notes_on_deleting_all(roads, todo),
{
    assert(todo.push(r).drop_last() =~= todo);
    assert(todo.to_set().filter(fixes::known(roads)) =~= Set::new(
        |k: OriginalRoad| todo.contains(k) && roads.contains_key(k),
    ));
}

/// Applying fixes leaves every road with both its ends on the map.
pub proof fn law_apply_keeps_ends(
    m: RawMapView,
    f: MapFixesView,
    in_bounds: Set<OriginalIntersection>,
)
    requires
        fixes::appliable(m, f),
        laws::ends_exist(m),
    ensures
        laws::ends_exist(fixes::apply_view(m, f, in_bounds)),
{
    let after = fixes::apply_view(m, f, in_bounds);
    assert forall|r: OriginalRoad| #[trigger] after.roads.contains_key(r) implies
        after.intersections.contains_key(r.i1) && after.intersections.contains_key(r.i2) by {
        if !f.override_roads.filter_keys(fixes::linked(after.intersections)).contains_key(r) {
            assert(m.roads.contains_key(r));
            assert(r.touches(r.i1) && r.touches(r.i2));
            assert(!f.delete_roads.contains(r)) by {
                assert(!f.delete_roads.filter(fixes::known(m.roads)).contains(r));
            }
        }
    }
}

/// Applying fixes leaves every turn restriction with a road to lead to, where those of the roads
/// that are created or modified have one.
pub proof fn law_apply_keeps_restrictions(
    m: RawMapView,
    f: MapFixesView,
    in_bounds: Set<OriginalIntersection>,
)
    requires
        laws::restrictions_resolve(m),
        forall|r: OriginalRoad, n: int|
            f.override_roads.contains_key(r) && 0 <= n < f.override_roads[r].turn_restrictions.len()
                ==> fixes::apply_view(m, f, in_bounds).roads.contains_key(
                (#[trigger] f.override_roads[r].turn_restrictions[n]).1,
            ),
    ensures
        laws::restrictions_resolve(fixes::apply_view(m, f, in_bounds)),
{
    let after = fixes::apply_view(m, f, in_bounds);
    let gone = f.delete_roads.filter(fixes::known(m.roads));
    let set = f.override_roads.filter_keys(fixes::linked(after.intersections));
    assert forall|r: OriginalRoad, n: int|
        after.roads.contains_key(r) && 0 <= n
            < after.roads[r].turn_restrictions.len() implies after.roads.contains_key(
        (#[trigger] after.roads[r].turn_restrictions[n]).1,
    ) by {
        if set.contains_key(r) {
            assert(after.roads[r] == f.override_roads[r]);
            assert(after.roads.contains_key(f.override_roads[r].turn_restrictions[n].1));
        } else {
            let ts = m.roads[r].turn_restrictions;
            let p = edit::leads_elsewhere(gone);
            seqs::lemma_filter_member(ts, p, n);
            let j = choose|j: int| 0 <= j < ts.len() && ts[j] == ts.filter(p)[n];
            assert(m.roads.contains_key(m.roads[r].turn_restrictions[j].1));
        }
    }
}

/// The fixes create or modify nothing that they delete.
pub open spec fn consistent(f: MapFixesView) -> bool {
    &&& f.delete_roads.disjoint(f.override_roads.dom())
    &&& f.delete_intersections.disjoint(f.override_intersections.dom())
}

/// What is recorded between two maps: a road or an intersection is to be deleted exactly where the
/// original has it and the new map does not, and it is to be created or modified exactly where the
/// new map has it and the original does not have it just so; then it is recorded as the new map has
/// it.
pub proof fn law_recorded(now: RawMapView, orig: RawMapView, f: MapFixesView)
    requires
        f == layers::difference(now, orig),
    ensures
        forall|r: OriginalRoad| #[trigger]
            f.delete_roads.contains(r) <==> orig.roads.contains_key(r) && !now.roads.contains_key(
                r,
            ),
        forall|i: OriginalIntersection| #[trigger]
            f.delete_intersections.contains(i) <==> orig.intersections.contains_key(i)
                && !now.intersections.contains_key(i),
        forall|i: OriginalIntersection| #[trigger]
            f.override_intersections.contains_key(i) <==> now.intersections.contains_key(i) && !(
            orig.intersections.contains_key(i) && orig.intersections[i] == now.intersections[i]),
        forall|i: OriginalIntersection| #[trigger]
            f.override_intersections.contains_key(i) ==> f.override_intersections[i]
                == now.intersections[i],
        forall|r: OriginalRoad| #[trigger]
            f.override_roads.contains_key(r) <==> now.roads.contains_key(r) && !(
            orig.roads.contains_key(r) && orig.roads[r] == now.roads[r]),
        forall|r: OriginalRoad| #[trigger]
            f.override_roads.contains_key(r) ==> f.override_roads[r] == now.roads[r],
        f.gps_bounds == now.gps_bounds,
{
}

/// What is recorded on top of master fixes: what is recorded between the two maps, less what the
/// master fixes do already. So what it deletes and what the master fixes delete have nothing in
/// common.
pub proof fn law_recorded_on_top(
    now: RawMapView,
    orig: RawMapView,
    master: MapFixesView,
    f: MapFixesView,
)
    requires
        f == layers::beyond(layers::difference(now, orig), master),
    ensures
        forall|r: OriginalRoad| #[trigger]
            f.delete_roads.contains(r) <==> orig.roads.contains_key(r) && !now.roads.contains_key(r)
                && !master.delete_roads.contains(r),
        forall|i: OriginalIntersection| #[trigger]
            f.delete_intersections.contains(i) <==> orig.intersections.contains_key(i)
                && !now.intersections.contains_key(i) && !master.delete_intersections.contains(i),
        forall|i: OriginalIntersection| #[trigger]
            f.override_intersections.contains_key(i) <==> now.intersections.contains_key(i) && !(
            orig.intersections.contains_key(i) && orig.intersections[i] == now.intersections[i])
                && !(master.override_intersections.contains_key(i)
                && master.override_intersections[i] == now.intersections[i]),
        forall|i: OriginalIntersection| #[trigger]
            f.override_intersections.contains_key(i) ==> f.override_intersections[i]
                == now.intersections[i],
        forall|r: OriginalRoad| #[trigger]
            f.override_roads.contains_key(r) <==> now.roads.contains_key(r) && !(
            orig.roads.contains_key(r) && orig.roads[r] == now.roads[r]) && !(
            master.override_roads.contains_key(r) && master.override_roads[r] == now.roads[r]),
        forall|r: OriginalRoad| #[trigger]
            f.override_roads.contains_key(r) ==> f.override_roads[r] == now.roads[r],
        f.delete_roads.disjoint(master.delete_roads),
        f.delete_intersections.disjoint(master.delete_intersections),
        f.gps_bounds == now.gps_bounds,
{
}

/// Fixes can be applied exactly where no intersection that they delete, and that is on the map, has
/// a road there that they do not delete.
pub proof fn law_appliable(m: RawMapView, f: MapFixesView)
    ensures
        fixes::appliable(m, f) <==> forall|i: OriginalIntersection, r: OriginalRoad| #[trigger]
            f.delete_intersections.contains(i) && m.intersections.contains_key(i) && #[trigger]
            m.roads.contains_key(r) && !f.delete_roads.contains(r) ==> r.i1 != i && r.i2 != i,
{
    if fixes::appliable(m, f) {
        assert forall|i: OriginalIntersection, r: OriginalRoad| #[trigger]
            f.delete_intersections.contains(i) && m.intersections.contains_key(i) && #[trigger]
            m.roads.contains_key(r) && !f.delete_roads.contains(r) implies r.i1 != i && r.i2
            != i by {
            assert(!r.touches(i));
        }
    }
}

/// Each layer of fixes can be applied to the map that is there when its turn comes. A map other
/// than the master map cannot do without master fixes.
pub proof fn law_all_appliable(
    m: RawMapView,
    master: Option<&LocatedFixes>,
    local: Option<&LocatedFixes>,
)
    ensures
        layers::all_appliable(m, master, local) <==> {
            let fixed = match master {
                Some(f) => fixes::apply_view(m, f.fixes@, f.in_bounds@),
                None => m,
            };
            &&& master is Some || m.name == "huge_seattle"@
            &&& master matches Some(f) ==> fixes::appliable(m, f.fixes@)
            &&& m.name == "huge_seattle"@ || (local matches Some(f) ==> fixes::appliable(
                fixed,
                f.fixes@,
            ))
        },
{
    law_no_fixes(m, m.gps_bounds, Set::empty());
    let fixed = layers::with_layer(m, layers::or_none(master, m.gps_bounds));
    law_no_fixes(fixed, m.gps_bounds, Set::empty());
}

/// The intersection that keeps all fixes from being applied is the first that keeps the master
/// fixes from being applied. Where there is none and the map is not the master map, it is the first
/// that keeps the local fixes from being applied to what the master fixes have left.
pub proof fn law_first_stuck_of_all(
    m: RawMapView,
    master: LocatedFixesView,
    local: LocatedFixesView,
    stuck: Option<OriginalIntersection>,
)
    requires
        layers::is_first_stuck_of_all(m, master, local, stuck),
    ensures
        m.name == "huge_seattle"@ || !fixes::appliable(m, master.fixes) ==> fixes::is_first_stuck(
            m,
            master.fixes,
            stuck,
        ),
        m.name != "huge_seattle"@ && fixes::appliable(m, master.fixes) ==> fixes::is_first_stuck(
            fixes::apply_view(m, master.fixes, master.in_bounds),
            local.fixes,
            stuck,
        ),
{
}

/// The intersection that keeps fixes from being applied is to be deleted, is on the map and has a
/// road there that is not to be deleted, and no other such intersection has a smaller id. Where
/// there is none, the fixes can be applied.
pub proof fn law_first_stuck(m: RawMapView, f: MapFixesView, stuck: Option<OriginalIntersection>)
    requires
        fixes::is_first_stuck(m, f, stuck),
    ensures
        stuck is None ==> fixes::appliable(m, f),
        stuck matches Some(i) ==> {
            &&& f.delete_intersections.contains(i)
            &&& m.intersections.contains_key(i)
            &&& exists|r: OriginalRoad| #[trigger]
                m.roads.contains_key(r) && !f.delete_roads.contains(r) && (r.i1 == i || r.i2 == i)
            &&& forall|other: OriginalIntersection, r: OriginalRoad| #[trigger]
                f.delete_intersections.contains(other) && m.intersections.contains_key(other)
                    && #[trigger] m.roads.contains_key(r) && !f.delete_roads.contains(r) && (r.i1
                    == other || r.i2 == other) ==> i.osm_node_id <= other.osm_node_id
        },
{
    if stuck is Some {
        let i = stuck->0;
        let r = choose|r: OriginalRoad| #[trigger]
            m.roads.contains_key(r) && !f.delete_roads.contains(r) && r.touches(i);
        assert(m.roads.contains_key(r) && (r.i1 == i || r.i2 == i));
        assert forall|other: OriginalIntersection, r: OriginalRoad| #[trigger]
            f.delete_intersections.contains(other) && m.intersections.contains_key(other)
                && #[trigger] m.roads.contains_key(r) && !f.delete_roads.contains(r) && (r.i1
                == other || r.i2 == other) implies i.osm_node_id <= other.osm_node_id by {
            assert(r.touches(other));
            assert(fixes::keeps_a_road(m, f, other));
        }
    }
}

/// All the fixes of the master map are the master fixes. On another map the local fixes are applied
/// to what the master fixes have left.
pub proof fn law_layers_in_turn(m: RawMapView, master: LocatedFixesView, local: LocatedFixesView)
    ensures
        m.name == "huge_seattle"@ ==> layers::with_all_layers(m, master, local)
            == fixes::apply_view(m, master.fixes, master.in_bounds),
        m.name != "huge_seattle"@ ==> layers::with_all_layers(m, master, local)
            == fixes::apply_view(
            fixes::apply_view(m, master.fixes, master.in_bounds),
            local.fixes,
            local.in_bounds,
        ),
{
}

/// Where the two layers of fixes of a map other than the master map meet, the local ones win: each
/// intersection is as the local fixes have it, where they have it in bounds, and gone where they
/// delete it; else as the master fixes have it, and gone where they delete it; else as it was.
pub proof fn law_layers_intersections(
    m: RawMapView,
    master: LocatedFixesView,
    local: LocatedFixesView,
    i: OriginalIntersection,
)
    requires
        m.name != "huge_seattle"@,
    ensures
        layers::with_all_layers(m, master, local).intersections.get(i) == {
            if local.fixes.override_intersections.contains_key(i) && local.in_bounds.contains(i) {
                Some(local.fixes.override_intersections[i])
            } else if local.fixes.delete_intersections.contains(i) {
                None
            } else if master.fixes.override_intersections.contains_key(i)
                && master.in_bounds.contains(i) {
                Some(master.fixes.override_intersections[i])
            } else if master.fixes.delete_intersections.contains(i) {
                None
            } else if m.intersections.contains_key(i) {
                Some(m.intersections[i])
            } else {
                None
            }
        },
{
    let once = fixes::apply_view(m, master.fixes, master.in_bounds);
    let twice = fixes::apply_view(once, local.fixes, local.in_bounds);
    law_apply_key_by_key(m, master.fixes, master.in_bounds, once);
    law_apply_key_by_key(once, local.fixes, local.in_bounds, twice);
    assert(twice.intersections.contains_key(i) || !twice.intersections.contains_key(i));
    assert(once.intersections.contains_key(i) || !once.intersections.contains_key(i));
}

/// Recorded fixes create or modify nothing that they delete.
pub proof fn law_generated_consistent(now: RawMapView, orig: RawMapView, master: MapFixesView)
    ensures
        consistent(layers::difference(now, orig)),
        consistent(layers::beyond(layers::difference(now, orig), master)),
{
}

/// Fixes that create or modify nothing that they delete can be applied again, and then change
/// nothing more.
pub proof fn law_apply_again(
    m: RawMapView,
    f: MapFixesView,
    in_bounds: Set<OriginalIntersection>,
)
    requires
        consistent(f),
    ensures
        fixes::appliable(fixes::apply_view(m, f, in_bounds), f),
        fixes::apply_view(fixes::apply_view(m, f, in_bounds), f, in_bounds) == fixes::apply_view(
            m,
            f,
            in_bounds,
        ),
{
    let once = fixes::apply_view(m, f, in_bounds);
    let twice = fixes::apply_view(once, f, in_bounds);
    assert(twice.intersections =~= once.intersections);
    assert(f.delete_roads.filter(fixes::known(once.roads)) =~= Set::empty()) by {
        assert forall|r: OriginalRoad| !f.delete_roads.filter(
            fixes::known(once.roads),
        ).contains(r) by {
            if f.delete_roads.contains(r) && once.roads.contains_key(r) {
                assert(f.delete_roads.filter(fixes::known(m.roads)).contains(r)
                    <==> m.roads.contains_key(r));
            }
        }
    }
    fixes::lemma_without_none(once.roads);
    assert(twice.roads =~= once.roads);
}

/// What recording and applying the way from `orig` to `now` takes: roads that come out changed
/// have both ends on the new map, unless they lost nothing but restrictions to roads that go;
/// roads that stay are not at an intersection that goes; intersections that come out changed are
/// in bounds; and roads that come out unchanged have no restriction to a road that goes.
pub open spec fn recordable(
    orig: RawMapView,
    now: RawMapView,
    in_bounds: Set<OriginalIntersection>,
) -> bool {
    let d = layers::difference(now, orig);
    &&& forall|r: OriginalRoad| #[trigger]
        d.override_roads.contains_key(r) ==> (now.intersections.contains_key(r.i1)
            && now.intersections.contains_key(r.i2)) || (orig.roads.contains_key(r)
            && edit::without_restrictions_to(orig.roads[r], d.delete_roads) == now.roads[r])
    &&& forall|i: OriginalIntersection, r: OriginalRoad|
        d.delete_intersections.contains(i) && orig.roads.contains_key(r)
            && now.roads.contains_key(r) ==> !#[trigger] r.touches(i)
    &&& forall|i: OriginalIntersection| #[trigger]
        d.override_intersections.contains_key(i) ==> in_bounds.contains(i)
    &&& forall|r: OriginalRoad, n: int|
        orig.roads.contains_key(r) && now.roads.contains_key(r) && orig.roads[r] == now.roads[r]
            && 0 <= n < now.roads[r].turn_restrictions.len() ==> !d.delete_roads.contains(
            (#[trigger] now.roads[r].turn_restrictions[n]).1,
        )
}

/// Fixes recorded between two maps, applied to the first, give the roads and intersections of the
/// second. This holds exactly where the way from one to the other can be recorded.
pub proof fn law_fixes_round_trip(
    orig: RawMapView,
    now: RawMapView,
    in_bounds: Set<OriginalIntersection>,
)
    ensures
        recordable(orig, now, in_bounds) <==> {
            &&& fixes::appliable(orig, layers::difference(now, orig))
            &&& fixes::apply_view(orig, layers::difference(now, orig), in_bounds).roads == now.roads
            &&& fixes::apply_view(orig, layers::difference(now, orig), in_bounds).intersections
                == now.intersections
        },
{
    let d = layers::difference(now, orig);
    let after = fixes::apply_view(orig, d, in_bounds);
    let gone = d.delete_roads.filter(fixes::known(orig.roads));
    assert(gone =~= d.delete_roads);
    if recordable(orig, now, in_bounds) {
        let set = d.override_intersections.filter_keys(fixes::among(in_bounds));
        assert(set =~= d.override_intersections);
        assert forall|i: OriginalIntersection|
            after.intersections.get(i) == #[trigger] now.intersections.get(i) by {
            assert(set.contains_key(i) <==> now.intersections.contains_key(i)
                && now.intersections.get(i) != orig.intersections.get(i));
        }
        lemma_same_entries(after.intersections, now.intersections);
        assert forall|r: OriginalRoad| #[trigger]
            now.roads.contains_key(r) && !d.override_roads.contains_key(r) implies
            edit::without_restrictions_to(orig.roads[r], gone) == now.roads[r] by {
            seqs::lemma_filter_all(
                orig.roads[r].turn_restrictions,
                edit::leads_elsewhere(gone),
            );
        }
        assert(after.roads =~= now.roads);
    }
    if fixes::appliable(orig, d) && after.roads == now.roads && after.intersections
        == now.intersections {
        assert forall|i: OriginalIntersection| #[trigger]
            d.override_intersections.contains_key(i) implies in_bounds.contains(i) by {
            if !in_bounds.contains(i) {
                assert(now.intersections.contains_key(i));
                assert(after.intersections.contains_key(i));
            }
        }
        assert forall|r: OriginalRoad| #[trigger]
            d.override_roads.contains_key(r) implies (now.intersections.contains_key(r.i1)
            && now.intersections.contains_key(r.i2)) || (orig.roads.contains_key(r)
            && edit::without_restrictions_to(orig.roads[r], d.delete_roads) == now.roads[r]) by {
            assert(now.roads.contains_key(r));
            assert(after.roads.contains_key(r));
            if !fixes::linked(now.intersections)(r) {
                assert(after.roads[r] == edit::without_restrictions_to(orig.roads[r], gone));
            }
        }
        assert forall|r: OriginalRoad, n: int|
            orig.roads.contains_key(r) && now.roads.contains_key(r) && orig.roads[r]
                == now.roads[r] && 0 <= n
                < now.roads[r].turn_restrictions.len() implies !d.delete_roads.contains(
            (#[trigger] now.roads[r].turn_restrictions[n]).1,
        ) by {
            assert(after.roads[r] == edit::without_restrictions_to(orig.roads[r], gone));
            seqs::lemma_filter_same(
                now.roads[r].turn_restrictions,
                edit::leads_elsewhere(gone),
                n,
            );
        }
    }
}

/// Where the new map is sound and what comes out changed is in bounds, the way to it can be
/// recorded, and so applying the recorded fixes gives it back.
pub proof fn law_sound_maps_round_trip(
    orig: RawMapView,
    now: RawMapView,
    in_bounds: Set<OriginalIntersection>,
)
    requires
        laws::ends_exist(now),
        laws::restrictions_resolve(now),
        layers::difference(now, orig).override_intersections.dom().subset_of(in_bounds),
    ensures
        fixes::appliable(orig, layers::difference(now, orig)),
        fixes::apply_view(orig, layers::difference(now, orig), in_bounds).roads == now.roads,
        fixes::apply_view(orig, layers::difference(now, orig), in_bounds).intersections
            == now.intersections,
{
    let d = layers::difference(now, orig);
    assert forall|r: OriginalRoad| #[trigger]
        d.override_roads.contains_key(r) implies now.intersections.contains_key(r.i1)
        && now.intersections.contains_key(r.i2) by {
        assert(now.roads.contains_key(r));
    }
    assert forall|i: OriginalIntersection, r: OriginalRoad|
        d.delete_intersections.contains(i) && orig.roads.contains_key(r)
            && now.roads.contains_key(r) implies !#[trigger] r.touches(i) by {}
    assert forall|i: OriginalIntersection| #[trigger]
        d.override_intersections.contains_key(i) implies in_bounds.contains(i) by {
        assert(d.override_intersections.dom().contains(i));
    }
    assert(recordable(orig, now, in_bounds));
    law_fixes_round_trip(orig, now, in_bounds);
}

/// Wherever the new map agrees with the original, or shows what the master fixes delete or
/// override, `left` agrees with the new map too.
pub open spec fn builds_on<K, V>(
    now: Map<K, V>,
    orig: Map<K, V>,
    left: Map<K, V>,
    deleted: Set<K>,
    overrides: Map<K, V>,
) -> bool {
    &&& forall|k: K| now.get(k) == #[trigger] orig.get(k) ==> left.get(k) == orig.get(k)
    &&& forall|k: K| #[trigger]
        overrides.contains_key(k) && now.get(k) == overrides.get(k) ==> left.get(k) == now.get(k)
    &&& forall|k: K| #[trigger]
        deleted.contains(k) && !now.contains_key(k) ==> !left.contains_key(k)
}

/// What recording local fixes on top of master fixes takes. `fixed` is the original map with the
/// master fixes, `local` the recorded fixes.
pub open spec fn recordable_on_top(
    orig: RawMapView,
    now: RawMapView,
    fixed: RawMapView,
    master: MapFixesView,
    local: MapFixesView,
    in_bounds: Set<OriginalIntersection>,
) -> bool {
    let left_intersections = fixed.intersections.remove_keys(local.delete_intersections);
    let left_roads = edit::without_roads(
        fixed.roads,
        local.delete_roads.filter(fixes::known(fixed.roads)),
    );
    &&& fixes::appliable(fixed, local)
    &&& builds_on(
        now.intersections,
        orig.intersections,
        left_intersections,
        master.delete_intersections,
        master.override_intersections,
    )
    &&& builds_on(
        now.roads,
        orig.roads,
        left_roads,
        master.delete_roads,
        master.override_roads,
    )
    &&& forall|i: OriginalIntersection| #[trigger]
        local.override_intersections.contains_key(i) ==> in_bounds.contains(i)
            || left_intersections.get(i) == now.intersections.get(i)
    &&& forall|r: OriginalRoad| #[trigger]
        local.override_roads.contains_key(r) ==> (now.intersections.contains_key(r.i1)
            && now.intersections.contains_key(r.i2)) || left_roads.get(r) == now.roads.get(r)
}

proof fn lemma_layers_round_trip(
    orig: RawMapView,
    now: RawMapView,
    fixed: RawMapView,
    master: MapFixesView,
    in_bounds: Set<OriginalIntersection>,
)
    ensures
        ({
            let local = layers::beyond(layers::difference(now, orig), master);
            recordable_on_top(orig, now, fixed, master, local, in_bounds) <==> {
                &&& fixes::appliable(fixed, local)
                &&& fixes::apply_view(fixed, local, in_bounds).roads == now.roads
                &&& fixes::apply_view(fixed, local, in_bounds).intersections == now.intersections
            }
        }),
{
    let d = layers::difference(now, orig);
    let local = layers::beyond(d, master);
    let after = fixes::apply_view(fixed, local, in_bounds);
    let left_intersections = fixed.intersections.remove_keys(local.delete_intersections);
    let left_roads = edit::without_roads(
        fixed.roads,
        local.delete_roads.filter(fixes::known(fixed.roads)),
    );
    if recordable_on_top(orig, now, fixed, master, local, in_bounds) {
        assert forall|i: OriginalIntersection|
            after.intersections.get(i) == #[trigger] now.intersections.get(i) by {
            if local.override_intersections.contains_key(i) {
                assert(d.override_intersections.contains_key(i));
                assert(local.override_intersections[i] == now.intersections[i]);
                assert(!local.delete_intersections.contains(i));
            } else if now.intersections.get(i) != orig.intersections.get(i) {
                if now.intersections.contains_key(i) {
                    assert(d.override_intersections.contains_key(i));
                    assert(master.override_intersections.contains_key(i));
                } else {
                    assert(d.delete_intersections.contains(i));
                    assert(local.delete_intersections.contains(i)
                        || master.delete_intersections.contains(i));
                }
            } else {
                assert(left_intersections.get(i) == orig.intersections.get(i));
            }
        }
        lemma_same_entries(after.intersections, now.intersections);
        assert forall|r: OriginalRoad| after.roads.get(r) == #[trigger] now.roads.get(r) by {
            if local.override_roads.contains_key(r) {
                assert(d.override_roads.contains_key(r));
                assert(local.override_roads[r] == now.roads[r]);
            } else if now.roads.get(r) != orig.roads.get(r) {
                if now.roads.contains_key(r) {
                    assert(d.override_roads.contains_key(r));
                    assert(master.override_roads.contains_key(r));
                } else {
                    assert(d.delete_roads.contains(r));
                    assert(local.delete_roads.contains(r) || master.delete_roads.contains(r));
                }
            } else {
                assert(left_roads.get(r) == orig.roads.get(r));
            }
        }
        lemma_same_entries(after.roads, now.roads);
    }
    if fixes::appliable(fixed, local) && after.roads == now.roads && after.intersections
        == now.intersections {
        assert forall|i: OriginalIntersection|
            now.intersections.get(i) == #[trigger] orig.intersections.get(
                i,
            ) implies left_intersections.get(i) == orig.intersections.get(i) by {
            assert(after.intersections.get(i) == now.intersections.get(i));
        }
        assert forall|i: OriginalIntersection| #[trigger]
            master.override_intersections.contains_key(i) && now.intersections.get(i)
                == master.override_intersections.get(i) implies left_intersections.get(i)
            == now.intersections.get(i) by {
            assert(after.intersections.get(i) == now.intersections.get(i));
        }
        assert forall|i: OriginalIntersection| #[trigger]
            local.override_intersections.contains_key(i) && !in_bounds.contains(i) implies
            left_intersections.get(i) == now.intersections.get(i) by {
            assert(after.intersections.get(i) == now.intersections.get(i));
        }
        assert forall|r: OriginalRoad| now.roads.get(r) == #[trigger] orig.roads.get(r) implies
            left_roads.get(r) == orig.roads.get(r) by {
            assert(after.roads.get(r) == now.roads.get(r));
        }
        assert forall|r: OriginalRoad| #[trigger]
            master.override_roads.contains_key(r) && now.roads.get(r) == master.override_roads.get(
                r,
            ) implies left_roads.get(r) == now.roads.get(r) by {
            assert(after.roads.get(r) == now.roads.get(r));
        }
        assert forall|r: OriginalRoad| #[trigger]
            local.override_roads.contains_key(r) && !(now.intersections.contains_key(r.i1)
                && now.intersections.contains_key(r.i2)) implies left_roads.get(r)
            == now.roads.get(r) by {
            assert(after.roads.get(r) == now.roads.get(r));
        }
    }
}

/// The local fixes of a map other than the master map: applied to the original map after the
/// master fixes, they give the roads and intersections of the new map. This holds exactly where
/// the new map builds on the master fixes, so that it undoes none of them, and what comes out
/// changed fits the map.
pub proof fn law_layers_round_trip(
    orig: RawMapView,
    now: RawMapView,
    master: LocatedFixesView,
    in_bounds: Set<OriginalIntersection>,
)
    requires
        !layers::is_master(orig),
    ensures
        ({
            let fixed = layers::with_layer(orig, master);
            let local = LocatedFixesView {
                fixes: layers::beyond(layers::difference(now, orig), master.fixes),
                in_bounds,
            };
            recordable_on_top(orig, now, fixed, master.fixes, local.fixes, in_bounds) <==> {
                &&& fixes::appliable(fixed, local.fixes)
                &&& layers::with_all_layers(orig, master, local).roads == now.roads
                &&& layers::with_all_layers(orig, master, local).intersections == now.intersections
            }
        }),
{
    lemma_layers_round_trip(
        orig,
        now,
        layers::with_layer(orig, master),
        master.fixes,
        in_bounds,
    );
}

proof fn lemma_same_entries<K, V>(a: Map<K, V>, b: Map<K, V>)
    requires
        forall|k: K| a.get(k) == #[trigger] b.get(k),
    ensures
        a == b,
{
    assert forall|k: K| #[trigger] a.contains_key(k) <==> b.contains_key(k) by {
        assert(a.get(k) == b.get(k));
    }
    assert forall|k: K| #[trigger] b.contains_key(k) implies a[k] == b[k] by {
        assert(a.get(k) == b.get(k));
    }
    assert(a =~= b);
}

/// A map that has just the master fixes needs no local ones, where the roads that the master fixes
/// neither delete nor set have no restriction to one that they delete.
pub proof fn law_inherited_left_out(
    orig: RawMapView,
    master: MapFixesView,
    in_bounds: Set<OriginalIntersection>,
)
    requires
        forall|r: OriginalRoad, n: int|
            orig.roads.contains_key(r) && 0 <= n < orig.roads[r].turn_restrictions.len()
                && !master.delete_roads.contains(r) && !master.override_roads.filter_keys(
                fixes::linked(fixes::fixed_intersections(orig, master, in_bounds)),
            ).contains_key(r) ==> !(master.delete_roads.contains(
                (#[trigger] orig.roads[r].turn_restrictions[n]).1,
            ) && orig.roads.contains_key(orig.roads[r].turn_restrictions[n].1)),
    ensures
        layers::beyond(
            layers::difference(fixes::apply_view(orig, master, in_bounds), orig),
            master,
        ) == fixes::no_fixes(orig.gps_bounds),
{
    let now = fixes::apply_view(orig, master, in_bounds);
    let d = layers::difference(now, orig);
    let local = layers::beyond(d, master);
    let none = fixes::no_fixes(orig.gps_bounds);
    let gone = master.delete_roads.filter(fixes::known(orig.roads));
    assert(local.delete_roads =~= none.delete_roads);
    assert(local.delete_intersections =~= none.delete_intersections);
    assert(local.override_intersections =~= none.override_intersections);
    assert forall|r: OriginalRoad| !local.override_roads.contains_key(r) by {
        if local.override_roads.contains_key(r) {
            assert(now.roads.contains_key(r));
            let linked = master.override_roads.filter_keys(fixes::linked(now.intersections));
            assert(!linked.contains_key(r));
            assert(orig.roads.contains_key(r) && !gone.contains(r));
            assert(!master.delete_roads.contains(r));
            assert(now.roads[r] == edit::without_restrictions_to(orig.roads[r], gone));
            seqs::lemma_filter_all(
                orig.roads[r].turn_restrictions,
                edit::leads_elsewhere(gone),
            );
        }
    }
    assert(local.override_roads =~= none.override_roads);
}

} // verus!
