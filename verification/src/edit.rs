//! Taking roads and intersections off a raw map, and moving them.
use crate::geometry::Pt2D;
use crate::ids::OriginalIntersection;
use crate::ids::OriginalRoad;
use crate::laws;
use crate::order;
use crate::query;
use crate::raw::RawIntersection;
use crate::raw::RawIntersectionView;
use crate::raw::RawMap;
use crate::raw::RawMapView;
use crate::raw::RawRoad;
use crate::raw::RawRoadView;
use crate::restriction::RestrictionType;
use vstd::prelude::*;
use vstd::string::StringExecFns;

verus! {

/// The restriction does not lead to a road in `gone`.
pub open spec fn leads_elsewhere(gone: Set<OriginalRoad>) -> spec_fn(
    (RestrictionType, OriginalRoad),
) -> bool {
    |t: (RestrictionType, OriginalRoad)| !gone.contains(t.1)
}

/// The road without its restrictions to the roads in `gone`.
pub open spec fn without_restrictions_to(
    road: RawRoadView,
    gone: Set<OriginalRoad>,
) -> RawRoadView {
    RawRoadView { turn_restrictions: road.turn_restrictions.filter(leads_elsewhere(gone)), ..road }
}

/// The roads that are left when those in `gone` go, and with them every restriction to one of
/// them.
pub open spec fn without_roads(
    roads: Map<OriginalRoad, RawRoadView>,
    gone: Set<OriginalRoad>,
) -> Map<OriginalRoad, RawRoadView> {
    Map::new(
        |r: OriginalRoad| roads.contains_key(r) && !gone.contains(r),
        |r: OriginalRoad| without_restrictions_to(roads[r], gone),
    )
}

/// The restriction leads to `r`.
pub open spec fn leads_to(r: OriginalRoad) -> spec_fn((RestrictionType, OriginalRoad)) -> bool {
    |t: (RestrictionType, OriginalRoad)| t.1 == r
}

/// The restriction with the road `src` that it comes from in front.
pub open spec fn coming_from(src: OriginalRoad) -> spec_fn((RestrictionType, OriginalRoad)) -> (
    OriginalRoad,
    RestrictionType,
    OriginalRoad,
) {
    |t: (RestrictionType, OriginalRoad)| (src, t.0, t.1)
}

/// For each road `src`, the restrictions from it to `r`.
pub open spec fn restrictions_between(
    roads: Map<OriginalRoad, RawRoadView>,
    r: OriginalRoad,
) -> spec_fn(OriginalRoad) -> Seq<(OriginalRoad, RestrictionType, OriginalRoad)> {
    |src: OriginalRoad|
        roads[src].turn_restrictions.filter(leads_to(r)).map_values(coming_from(src))
}

/// The restrictions from other roads to `r`, in the order of the roads they come from.
pub open spec fn restrictions_to(
    roads: Map<OriginalRoad, RawRoadView>,
    r: OriginalRoad,
) -> Seq<(OriginalRoad, RestrictionType, OriginalRoad)> {
    order::in_order(roads.dom().remove(r)).flat_map(restrictions_between(roads, r))
}

/// The restrictions of `road`, which is `src`: those to `r`, and the others.
fn split_restrictions(road: &RawRoad, src: OriginalRoad, r: OriginalRoad) -> (parts: (
    Vec<(OriginalRoad, RestrictionType, OriginalRoad)>,
    Vec<(RestrictionType, OriginalRoad)>,
))
    ensures
        parts.0@ == road@.turn_restrictions.filter(leads_to(r)).map_values(coming_from(src)),
        parts.1@ == road@.turn_restrictions.filter(leads_elsewhere(set![r])),
        parts.0@.len() == 0 ==> parts.1@ == road@.turn_restrictions,
{
    let mut hits: Vec<(OriginalRoad, RestrictionType, OriginalRoad)> = Vec::new();
    let mut rest: Vec<(RestrictionType, OriginalRoad)> = Vec::new();
    let ghost all = road.turn_restrictions@;
    proof {
        reveal(Seq::filter);
        assert(hits@ =~= all.take(0).filter(leads_to(r)).map_values(coming_from(src)));
    }
    let mut n: usize = 0;
    while n < road.turn_restrictions.len()
        invariant
            n <= all.len(),
            all == road.turn_restrictions@,
            hits@ == all.take(n as int).filter(leads_to(r)).map_values(coming_from(src)),
            rest@ == all.take(n as int).filter(leads_elsewhere(set![r])),
            hits@.len() == 0 ==> rest@ == all.take(n as int),
        decreases all.len() - n,
    {
        let rt: RestrictionType = road.turn_restrictions[n].0;
        let to: OriginalRoad = road.turn_restrictions[n].1;
        proof {
            reveal(Seq::filter);
            assert(all.take(n + 1).drop_last() =~= all.take(n as int));
            assert(all.take(n + 1) =~= all.take(n as int).push(all[n as int]));
        }
        if to == r {
            hits.push((src, rt, to));
        } else {
            rest.push((rt, to));
        }
        proof {
            assert(hits@ =~= all.take(n + 1).filter(leads_to(r)).map_values(coming_from(src)));
        }
        n += 1;
    }
    assert(all.take(n as int) =~= all);
    (hits, rest)
}

/// What is to be said about deleting `r`: that it has turn restrictions, and which restrictions
/// from other roads go along.
pub open spec fn deletion_notes(roads: Map<OriginalRoad, RawRoadView>, r: OriginalRoad) -> Seq<
    Seq<char>,
> {
    let own = if roads[r].turn_restrictions.len() > 0 {
        seq!["Deleting "@ + r.text() + ", but note it has turn restrictions from it"@]
    } else {
        seq![]
    };
    own + restrictions_to(roads, r).map_values(restriction_note())
}

/// What is to be said about a restriction that goes along with a road.
pub open spec fn restriction_note() -> spec_fn(
    (OriginalRoad, RestrictionType, OriginalRoad),
) -> Seq<char> {
    |t: (OriginalRoad, RestrictionType, OriginalRoad)|
        "Deleting turn restriction from other road "@ + t.0.text() + " to "@ + t.2.text()
}

/// The texts as sequences of characters.
pub open spec fn texts(notes: Seq<String>) -> Seq<Seq<char>> {
    notes.map_values(|s: String| s@)
}

/// The road `id` with its end at `i` moved to `point`: its start, if it starts there, else its
/// last point.
pub open spec fn with_end_at(
    road: RawRoadView,
    id: OriginalRoad,
    i: OriginalIntersection,
    point: Pt2D,
) -> RawRoadView {
    RawRoadView {
        center_points: if id.i1 == i {
            road.center_points.update(0, point)
        } else {
            road.center_points.update(road.center_points.len() - 1, point)
        },
        ..road
    }
}

/// The roads, with the ends of those at `i` moved to `point`.
pub open spec fn with_ends_at(
    roads: Map<OriginalRoad, RawRoadView>,
    i: OriginalIntersection,
    point: Pt2D,
) -> Map<OriginalRoad, RawRoadView> {
    roads.map_entries(
        |k: OriginalRoad, v: RawRoadView|
            if k.touches(i) {
                with_end_at(v, k, i, point)
            } else {
                v
            },
    )
}

/// `id` is on the map, and every road there has an end to be moved along.
pub open spec fn can_move(m: RawMapView, id: OriginalIntersection) -> bool {
    &&& m.intersections.contains_key(id)
    &&& forall|r: OriginalRoad| #[trigger]
        m.roads.contains_key(r) && r.touches(id) ==> m.roads[r].center_points.len() > 0
}

/// The map once `id` has been moved to `point`.
pub open spec fn move_intersection_view(
    m: RawMapView,
    id: OriginalIntersection,
    point: Pt2D,
) -> RawMapView {
    RawMapView {
        intersections: m.intersections.insert(
            id,
            RawIntersectionView { point, ..m.intersections[id] },
        ),
        roads: with_ends_at(m.roads, id, point),
        ..m
    }
}

/// Moves the end of the road `id` at `i` to `point`.
fn set_end(road: &mut RawRoad, id: OriginalRoad, i: OriginalIntersection, point: Pt2D)
    requires
        old(road)@.center_points.len() > 0,
    ensures
        final(road)@ == with_end_at(old(road)@, id, i, point),
{
    if id.i1 == i {
        road.center_points[0] = point;
    } else {
        let last: usize = road.center_points.len() - 1;
        road.center_points[last] = point;
    }
}

impl RawMap {
    /// The restrictions from other roads to `r`. A brute force search.
    fn find_restrictions_to(&self, r: OriginalRoad) -> (found: Vec<
        (OriginalRoad, RestrictionType, OriginalRoad),
    >)
        ensures
            found@ == restrictions_to(self@.roads, r),
            self@.roads.dom().finite(),
    {
        let keys: Vec<OriginalRoad> = self.roads.keys();
        let ghost roads = self.roads@;
        let ghost other = |src: OriginalRoad| src != r;
        let ghost between = restrictions_between(roads, r);
        let mut found: Vec<(OriginalRoad, RestrictionType, OriginalRoad)> = Vec::new();
        let mut n: usize = 0;
        proof {
            reveal(Seq::filter);
            assert(found@ =~= keys@.take(0).filter(other).flat_map(between));
        }
        while n < keys.len()
            invariant
                n <= keys@.len(),
                order::lists(keys@, roads.dom()),
                roads == self@.roads,
                roads.dom().finite(),
                other == (|src: OriginalRoad| src != r),
                between == restrictions_between(roads, r),
                found@ == keys@.take(n as int).filter(other).flat_map(between),
            decreases keys@.len() - n,
        {
            let src: OriginalRoad = keys[n];
            let ghost before = keys@.take(n as int);
            proof {
                reveal(Seq::filter);
                order::lemma_listing_step(keys@, roads.dom(), n as int);
                assert(keys@.take(n + 1).drop_last() =~= before);
            }
            if src != r {
                let (mut hits, _) = split_restrictions(self.roads.get(&src).unwrap(), src, r);
                proof {
                    before.filter(other).lemma_flat_map_push(between, src);
                    assert(keys@.take(n + 1).filter(other) == before.filter(other).push(src));
                }
                found.append(&mut hits);
            }
            n += 1;
        }
        proof {
            assert(keys@.take(n as int) =~= keys@);
            order::lemma_listing_filter(keys@, roads.dom(), other);
            assert(roads.dom().filter(other) =~= roads.dom().remove(r));
        }
        found
    }

    /// What is to be said about deleting `r`: that it has turn restrictions, and which
    /// restrictions from other roads go along.
    pub fn notes_on_deleting(&self, r: OriginalRoad) -> (notes: Vec<String>)
        requires
            self@.roads.contains_key(r),
        ensures
            texts(notes@) == deletion_notes(self@.roads, r),
            ({
                let hits = restrictions_to(self.roads@, r);
                let own: int = if self.roads@[r].turn_restrictions.len() > 0 {
                    1
                } else {
                    0
                };
                &&& notes@.len() == own + hits.len()
                &&& own == 1 ==> notes@[0]@ == "Deleting "@ + r.text()
                    + ", but note it has turn restrictions from it"@
                &&& forall|n: int|
                    own <= n < notes@.len() ==> (#[trigger] notes@[n])@
                        == "Deleting turn restriction from other road "@ + hits[n - own].0.text()
                        + " to "@ + hits[n - own].2.text()
            }),
    {
        let mut notes: Vec<String> = Vec::new();
        if self.roads.get(&r).unwrap().turn_restrictions.len() > 0 {
            let mut s: String = "Deleting ".to_owned();
            s.append(r.to_string().as_str());
            s.append(", but note it has turn restrictions from it");
            notes.push(s);
        }
        let ghost own = texts(notes@);
        let found: Vec<(OriginalRoad, RestrictionType, OriginalRoad)> = self.find_restrictions_to(
            r,
        );
        let mut n: usize = 0;
        while n < found.len()
            invariant
                n <= found@.len(),
                texts(notes@) =~= own + found@.take(n as int).map_values(restriction_note()),
            decreases found@.len() - n,
        {
            let mut s: String = "Deleting turn restriction from other road ".to_owned();
            s.append(found[n].0.to_string().as_str());
            s.append(" to ");
            s.append(found[n].2.to_string().as_str());
            let ghost before = notes@;
            notes.push(s);
            proof {
                let t = found@[n as int];
                assert(s@ == restriction_note()(t));
                assert(found@.take(n + 1) =~= found@.take(n as int).push(t));
                assert(texts(notes@) =~= texts(before).push(s@));
            }
            n += 1;
        }
        proof {
            assert(found@.take(n as int) =~= found@);
            assert(texts(notes@) =~= deletion_notes(self@.roads, r));
            laws::law_deletion_notes(self@.roads, r);
            assert forall|n: int| 0 <= n < notes@.len() implies (#[trigger] notes@[n])@ == texts(
                notes@,
            )[n] by {}
        }
        notes
    }

    /// Takes `r` off the map, along with every turn restriction to it. Returns the restrictions
    /// that went along, aside from those that came from `r`.
    pub fn delete_road(&mut self, r: OriginalRoad) -> (deleted: Vec<
        (OriginalRoad, RestrictionType, OriginalRoad),
    >)
        requires
            old(self)@.roads.contains_key(r),
        ensures
            final(self)@ == (RawMapView {
                roads: without_roads(old(self)@.roads, set![r]),
                ..old(self)@
            }),
            deleted@ == restrictions_to(old(self)@.roads, r),
            forall|k: OriginalRoad| #[trigger]
                final(self).roads@.contains_key(k) <==> old(self).roads@.contains_key(k) && k != r,
            forall|k: OriginalRoad| #[trigger]
                old(self).roads@.contains_key(k) && k != r ==> {
                    let road = old(self).roads@[k];
                    let left = final(self).roads@[k];
                    &&& left.center_points == road.center_points
                    &&& left.osm_tags == road.osm_tags
                    &&& left.turn_restrictions == road.turn_restrictions.filter(
                        |t: (RestrictionType, OriginalRoad)| t.1 != r,
                    )
                },
            final(self).intersections@ == old(self).intersections@,
            forall|n: int|
                0 <= n < deleted@.len() ==> {
                    let t = #[trigger] deleted@[n];
                    t.0 != r && old(self).roads@.contains_key(t.0) && t.2 == r
                },
            forall|a: int, b: int|
                0 <= a < b < deleted@.len() ==> {
                    let s = #[trigger] deleted@[a];
                    let t = #[trigger] deleted@[b];
                    s.0 == t.0 || order::Key::before(s.0, t.0)
                },
            forall|src: OriginalRoad| #[trigger]
                old(self).roads@.contains_key(src) && src != r ==> deleted@.filter(
                    |t: (OriginalRoad, RestrictionType, OriginalRoad)| t.0 == src,
                ) == old(self).roads@[src].turn_restrictions.filter(
                    |t: (RestrictionType, OriginalRoad)| t.1 == r,
                ).map_values(|t: (RestrictionType, OriginalRoad)| (src, t.0, t.1)),
    {
        let deleted: Vec<(OriginalRoad, RestrictionType, OriginalRoad)> =
            self.find_restrictions_to(r);
        self.roads.remove(&r);
        let keys: Vec<OriginalRoad> = self.roads.keys();
        let ghost roads = self.roads@;
        let mut n: usize = 0;
        while n < keys.len()
            invariant
                n <= keys@.len(),
                order::lists(keys@, roads.dom()),
                old(self)@.roads.dom().finite(),
                roads == old(self)@.roads.remove(r),
                self.roads@.dom() == roads.dom(),
                forall|k: OriginalRoad| #[trigger]
                    roads.contains_key(k) ==> self.roads@[k] == (if keys@.take(
                        n as int,
                    ).contains(k) {
                        without_restrictions_to(roads[k], set![r])
                    } else {
                        roads[k]
                    }),
                self@ == (RawMapView { roads: self@.roads, ..old(self)@ }),
            decreases keys@.len() - n,
        {
            let src: OriginalRoad = keys[n];
            proof {
                order::lemma_listing_step(keys@, roads.dom(), n as int);
            }
            let (hits, rest) = split_restrictions(self.roads.get(&src).unwrap(), src, r);
            if hits.len() > 0 {
                let mut road: RawRoad = self.roads.remove(&src).unwrap();
                road.turn_restrictions = rest;
                self.roads.insert(src, road);
                assert(self.roads@.dom() =~= roads.dom());
            }
            n += 1;
        }
        proof {
            assert(keys@.take(n as int) =~= keys@);
            assert(self.roads@ =~= without_roads(old(self)@.roads, set![r]));
            laws::law_delete_road_spares_others(old(self)@, r);
            laws::law_deleted_restrictions_in_order(old(self)@.roads, r);
        }
        deleted
    }

    /// Takes `id` off the map. No road may start or end there.
    pub fn delete_intersection(&mut self, id: OriginalIntersection)
        requires
            old(self)@.intersections.contains_key(id),
            forall|r: OriginalRoad| #[trigger]
                old(self)@.roads.contains_key(r) ==> !r.touches(id),
        ensures
            final(self)@ == (RawMapView {
                intersections: old(self)@.intersections.remove(id),
                ..old(self)@
            }),
    {
        self.intersections.remove(&id);
    }

    /// Moves `id` to `point`, and with it the ends of the roads there. Returns those roads.
    pub fn move_intersection(&mut self, id: OriginalIntersection, point: Pt2D) -> (fixed: Option<
        Vec<OriginalRoad>,
    >)
        requires
            can_move(old(self)@, id),
        ensures
            final(self)@ == move_intersection_view(old(self)@, id, point),
            fixed is Some,
            fixed->0@ == query::roads_at(old(self)@.roads, id),
            forall|i: OriginalIntersection| #[trigger]
                final(self).intersections@.contains_key(i)
                    <==> old(self).intersections@.contains_key(i),
            forall|i: OriginalIntersection| #[trigger]
                old(self).intersections@.contains_key(i) && i != id
                    ==> final(self).intersections@[i] == old(self).intersections@[i],
            final(self).intersections@[id].point == point,
            final(self).intersections@[id].intersection_type
                == old(self).intersections@[id].intersection_type,
            final(self).intersections@[id].label == old(self).intersections@[id].label,
            final(self).intersections@[id].synthetic == old(self).intersections@[id].synthetic,
            forall|k: OriginalRoad| #[trigger]
                final(self).roads@.contains_key(k) <==> old(self).roads@.contains_key(k),
            forall|k: OriginalRoad| #[trigger]
                old(self).roads@.contains_key(k) ==> {
                    let road = old(self).roads@[k];
                    let moved = final(self).roads@[k];
                    &&& moved.osm_tags == road.osm_tags
                    &&& moved.turn_restrictions == road.turn_restrictions
                    &&& moved.center_points.len() == road.center_points.len()
                    &&& forall|n: int|
                        0 <= n < road.center_points.len() ==> #[trigger] moved.center_points[n] == (
                        if n == 0 && k.i1 == id || n == road.center_points.len() - 1 && k.i1 != id
                            && k.i2 == id {
                            point
                        } else {
                            road.center_points[n]
                        })
                },
            final(self).buildings@ == old(self).buildings@,
            final(self)@.areas == old(self)@.areas,
            final(self).name@ == old(self).name@,
            final(self).gps_bounds == old(self).gps_bounds,
            forall|r: OriginalRoad| #[trigger]
                fixed->0@.contains(r) <==> old(self).roads@.contains_key(r) && (r.i1 == id || r.i2
                    == id),
            forall|a: int, b: int|
                0 <= a < b < fixed->0@.len() ==> order::Key::before(
                    #[trigger] fixed->0@[a],
                    #[trigger] fixed->0@[b],
                ),
    {
        let mut intersection: RawIntersection = self.intersections.remove(&id).unwrap();
        intersection.point = point;
        self.intersections.insert(id, intersection);
        assert(self.intersections@ =~= old(self)@.intersections.insert(
            id,
            RawIntersectionView { point, ..old(self)@.intersections[id] },
        ));

        let fixed: Vec<OriginalRoad> = self.roads_per_intersection(id);
        let ghost roads = self.roads@;
        let ghost here = roads.dom().filter(query::touching(id));
        proof {
            assert forall|r: OriginalRoad| #[trigger] fixed@.contains(r) <==> here.contains(r) by {
            }
            assert(order::lists(fixed@, here));
        }
        let mut n: usize = 0;
        while n < fixed.len()
            invariant
                n <= fixed@.len(),
                order::lists(fixed@, here),
                here == roads.dom().filter(query::touching(id)),
                roads == old(self)@.roads,
                forall|r: OriginalRoad| #[trigger]
                    roads.contains_key(r) && r.touches(id) ==> roads[r].center_points.len() > 0,
                self.roads@.dom() == roads.dom(),
                forall|k: OriginalRoad| #[trigger]
                    roads.contains_key(k) ==> self.roads@[k] == (if fixed@.take(
                        n as int,
                    ).contains(k) {
                        with_end_at(roads[k], k, id, point)
                    } else {
                        roads[k]
                    }),
                self@ == (RawMapView {
                    roads: self@.roads,
                    intersections: self@.intersections,
                    ..old(self)@
                }),
                self.intersections@ == old(self)@.intersections.insert(
                    id,
                    RawIntersectionView { point, ..old(self)@.intersections[id] },
                ),
            decreases fixed@.len() - n,
        {
            let r: OriginalRoad = fixed[n];
            proof {
                order::lemma_listing_step(fixed@, here, n as int);
            }
            let mut road: RawRoad = self.roads.remove(&r).unwrap();
            set_end(&mut road, r, id, point);
            self.roads.insert(r, road);
            assert(self.roads@.dom() =~= roads.dom());
            n += 1;
        }
        proof {
            assert(fixed@.take(n as int) =~= fixed@);
            assert(self.roads@ =~= with_ends_at(roads, id, point));
            laws::law_move_changes(old(self)@, id, point);
        }
        Some(fixed)
    }
}

} // verus!
