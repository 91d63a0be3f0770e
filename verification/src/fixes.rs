//! Fixes: recorded edits that can be applied to a raw map.
use crate::edit;
use crate::fixes_laws;
use crate::geometry::GPSBounds;
use crate::ids::OriginalIntersection;
use crate::ids::OriginalRoad;
use crate::order;
use crate::raw::RawIntersection;
use crate::raw::RawIntersectionView;
use crate::raw::RawMap;
use crate::raw::RawMapView;
use crate::raw::RawRoad;
use crate::raw::RawRoadView;
use crate::restriction::RestrictionType;
use crate::seqs;
use crate::sorted_map::SortedMap;
use crate::sorted_set::SortedSet;
use crate::text;
use vstd::prelude::*;
use vstd::string::StringExecFns;

verus! {

/// Directives to apply to a raw map.
#[derive(Debug)]
pub struct MapFixes {
    /// Any points in the rest of the fixes are relative to these bounds.
    pub gps_bounds: GPSBounds,
    pub delete_roads: SortedSet<OriginalRoad>,
    pub delete_intersections: SortedSet<OriginalIntersection>,
    /// Intersections to create or modify.
    pub override_intersections: SortedMap<OriginalIntersection, RawIntersection>,
    /// Roads to create or modify.
    pub override_roads: SortedMap<OriginalRoad, RawRoad>,
}

/// What `MapFixes` stands for.
#[verifier::ext_equal]
pub struct MapFixesView {
    pub gps_bounds: GPSBounds,
    pub delete_roads: Set<OriginalRoad>,
    pub delete_intersections: Set<OriginalIntersection>,
    pub override_intersections: Map<OriginalIntersection, RawIntersectionView>,
    pub override_roads: Map<OriginalRoad, RawRoadView>,
}

impl View for MapFixes {
    type V = MapFixesView;

    open spec fn view(&self) -> MapFixesView {
        MapFixesView {
            gps_bounds: self.gps_bounds,
            delete_roads: self.delete_roads@,
            delete_intersections: self.delete_intersections@,
            override_intersections: self.override_intersections@,
            override_roads: self.override_roads@,
        }
    }
}

impl Clone for MapFixes {
    fn clone(&self) -> (r: Self)
        ensures
            r@ == self@,
    {
        MapFixes {
            gps_bounds: self.gps_bounds,
            delete_roads: self.delete_roads.clone(),
            delete_intersections: self.delete_intersections.clone(),
            override_intersections: self.override_intersections.clone(),
            override_roads: self.override_roads.clone(),
        }
    }
}

/// Fixes that change nothing.
pub open spec fn no_fixes(gps_bounds: GPSBounds) -> MapFixesView {
    MapFixesView {
        gps_bounds,
        delete_roads: Set::empty(),
        delete_intersections: Set::empty(),
        override_intersections: Map::empty(),
        override_roads: Map::empty(),
    }
}

impl MapFixes {
    /// Fixes that change nothing, relative to the given bounds.
    pub fn new(gps_bounds: GPSBounds) -> (f: MapFixes)
        ensures
            f@ == no_fixes(gps_bounds),
            f.gps_bounds == gps_bounds,
            f.delete_roads@ == Set::<OriginalRoad>::empty(),
            f.delete_intersections@ == Set::<OriginalIntersection>::empty(),
            f.override_intersections@.dom() == Set::<OriginalIntersection>::empty(),
            f.override_roads@.dom() == Set::<OriginalRoad>::empty(),
    {
        MapFixes {
            gps_bounds,
            delete_roads: SortedSet::new(),
            delete_intersections: SortedSet::new(),
            override_intersections: SortedMap::new(),
            override_roads: SortedMap::new(),
        }
    }
}

/// The key is in the map.
pub open spec fn known<K, V>(m: Map<K, V>) -> spec_fn(K) -> bool {
    |k: K| m.contains_key(k)
}

/// The member is in the set.
pub open spec fn among<K>(s: Set<K>) -> spec_fn(K) -> bool {
    |k: K| s.contains(k)
}

/// Both ends of the road are among the intersections.
pub open spec fn linked<V>(intersections: Map<OriginalIntersection, V>) -> spec_fn(
    OriginalRoad,
) -> bool {
    |r: OriginalRoad| intersections.contains_key(r.i1) && intersections.contains_key(r.i2)
}

/// How many of some fixes were applied.
#[derive(Debug)]
pub struct FixReport {
    /// What the fixes are called.
    pub name: String,
    pub applied: u128,
    /// How many fixes there were, with those that did not fit the map and were skipped.
    pub total: u128,
    /// What is to be said about the roads that were deleted.
    pub warnings: Vec<String>,
}

impl FixReport {
    /// What `note` writes.
    pub open spec fn text(self) -> Seq<char> {
        "Applied "@ + text::unsigned(self.applied as nat) + " of "@ + text::unsigned(
            self.total as nat,
        ) + " "@ + self.name@ + " fixes"@
    }

    /// The report in words.
    pub fn note(&self) -> (s: String)
        ensures
            s@ == self.text(),
            s@ == "Applied "@ + text::unsigned(self.applied as nat) + " of "@ + text::unsigned(
                self.total as nat,
            ) + " "@ + self.name@ + " fixes"@,
    {
        let mut s: String = "Applied ".to_owned();
        s.append(text::from_u128(self.applied).as_str());
        s.append(" of ");
        s.append(text::from_u128(self.total).as_str());
        s.append(" ");
        s.append(self.name.as_str());
        s.append(" fixes");
        s
    }
}

/// What is to be said about deleting those of the roads in `todo` that are there, one after the
/// other.
pub open spec fn notes_on_deleting_all(
    roads: Map<OriginalRoad, RawRoadView>,
    todo: Seq<OriginalRoad>,
) -> Seq<Seq<char>>
    decreases todo.len(),
{
    if todo.len() == 0 {
        seq![]
    } else {
        let r = todo.last();
        let rest = todo.drop_last();
        let left = edit::without_roads(roads, rest.to_set().filter(known(roads)));
        if roads.contains_key(r) {
            notes_on_deleting_all(roads, rest) + edit::deletion_notes(left, r)
        } else {
            notes_on_deleting_all(roads, rest)
        }
    }
}

/// The intersections once the fixes have been applied.
pub open spec fn fixed_intersections(
    m: RawMapView,
    f: MapFixesView,
    in_bounds: Set<OriginalIntersection>,
) -> Map<OriginalIntersection, RawIntersectionView> {
    m.intersections.remove_keys(f.delete_intersections).union_prefer_right(
        f.override_intersections.filter_keys(among(in_bounds)),
    )
}

/// The map once the fixes have been applied.
pub open spec fn apply_view(
    m: RawMapView,
    f: MapFixesView,
    in_bounds: Set<OriginalIntersection>,
) -> RawMapView {
    let intersections = fixed_intersections(m, f, in_bounds);
    RawMapView {
        intersections,
        roads: edit::without_roads(
            m.roads,
            f.delete_roads.filter(known(m.roads)),
        ).union_prefer_right(f.override_roads.filter_keys(linked(intersections))),
        ..m
    }
}

/// No intersection that the fixes delete has a road that they leave.
pub open spec fn appliable(m: RawMapView, f: MapFixesView) -> bool {
    forall|i: OriginalIntersection, r: OriginalRoad|
        f.delete_intersections.contains(i) && m.intersections.contains_key(i)
            && m.roads.contains_key(r) && !f.delete_roads.contains(r) ==> !#[trigger] r.touches(i)
}

/// The map has the intersection, and with it a road there that the fixes leave.
pub open spec fn keeps_a_road(m: RawMapView, f: MapFixesView, i: OriginalIntersection) -> bool {
    m.intersections.contains_key(i) && exists|r: OriginalRoad| #[trigger]
        m.roads.contains_key(r) && !f.delete_roads.contains(r) && r.touches(i)
}

/// The first of the intersections to delete that cannot go, if there is one.
pub open spec fn is_first_stuck(
    m: RawMapView,
    f: MapFixesView,
    stuck: Option<OriginalIntersection>,
) -> bool {
    match stuck {
        Some(i) => {
            &&& f.delete_intersections.contains(i)
            &&& keeps_a_road(m, f, i)
            &&& forall|other: OriginalIntersection| #[trigger]
                f.delete_intersections.contains(other) && keeps_a_road(m, f, other)
                    ==> i.osm_node_id <= other.osm_node_id
        },
        None => appliable(m, f),
    }
}

/// How many of the fixes fit the map.
pub open spec fn applied_count(
    m: RawMapView,
    f: MapFixesView,
    in_bounds: Set<OriginalIntersection>,
) -> nat {
    f.delete_roads.filter(known(m.roads)).len() + f.delete_intersections.filter(
        known(m.intersections),
    ).len() + f.override_intersections.dom().filter(among(in_bounds)).len()
        + f.override_roads.dom().filter(linked(fixed_intersections(m, f, in_bounds))).len()
}

/// How many fixes there are.
pub open spec fn fixes_count(f: MapFixesView) -> nat {
    f.delete_roads.len() + f.delete_intersections.len() + f.override_intersections.dom().len()
        + f.override_roads.dom().len()
}

/// Taking off no roads changes none.
pub proof fn lemma_without_none(roads: Map<OriginalRoad, RawRoadView>)
    ensures
        edit::without_roads(roads, Set::empty()) == roads,
{
    let same = edit::without_roads(roads, Set::empty());
    assert forall|k: OriginalRoad| #[trigger] roads.contains_key(k) implies same[k] == roads[k] by {
        seqs::lemma_filter_all(
            roads[k].turn_restrictions,
            edit::leads_elsewhere(Set::<OriginalRoad>::empty()),
        );
    }
    assert(same =~= roads);
}

/// Taking off one set of roads and then another road is taking off all of them at once.
pub proof fn lemma_without_one_more(
    roads: Map<OriginalRoad, RawRoadView>,
    gone: Set<OriginalRoad>,
    r: OriginalRoad,
)
    ensures
        edit::without_roads(edit::without_roads(roads, gone), set![r]) == edit::without_roads(
            roads,
            gone.insert(r),
        ),
{
    let twice = edit::without_roads(edit::without_roads(roads, gone), set![r]);
    let once = edit::without_roads(roads, gone.insert(r));
    assert forall|k: OriginalRoad| #[trigger] once.contains_key(k) implies twice[k] == once[k] by {
        seqs::lemma_filter_filter(
            roads[k].turn_restrictions,
            edit::leads_elsewhere(gone),
            edit::leads_elsewhere(set![r]),
            edit::leads_elsewhere(gone.insert(r)),
        );
    }
    assert(twice =~= once);
}

impl RawMap {
    /// Takes off those of the roads that are there.
    fn delete_listed_roads(&mut self, ids: &SortedSet<OriginalRoad>) -> (res: (usize, Vec<String>))
        ensures
            final(self)@ == (RawMapView {
                roads: edit::without_roads(
                    old(self)@.roads,
                    ids@.filter(known(old(self)@.roads)),
                ),
                ..old(self)@
            }),
            res.0 == ids@.filter(known(old(self)@.roads)).len(),
            res.0 <= ids@.len(),
            edit::texts(res.1@) == notes_on_deleting_all(old(self)@.roads, order::in_order(ids@)),
    {
        let q: Vec<OriginalRoad> = ids.to_vec();
        let ghost roads = self.roads@;
        let ghost p = known(roads);
        let mut applied: usize = 0;
        let mut warnings: Vec<String> = Vec::new();
        let mut n: usize = 0;
        proof {
            reveal(Seq::filter);
            lemma_without_none(roads);
            assert(q@.take(0).to_set().filter(p) =~= Set::empty());
            assert(edit::texts(warnings@) =~= notes_on_deleting_all(roads, q@.take(0)));
        }
        while n < q.len()
            invariant
                n <= q@.len(),
                order::lists(q@, ids@),
                roads == old(self)@.roads,
                p == known(roads),
                self@ == (RawMapView {
                    roads: edit::without_roads(roads, q@.take(n as int).to_set().filter(p)),
                    ..old(self)@
                }),
                applied <= n,
                applied == q@.take(n as int).filter(p).len(),
                edit::texts(warnings@) == notes_on_deleting_all(roads, q@.take(n as int)),
            decreases q@.len() - n,
        {
            let r: OriginalRoad = q[n];
            let ghost gone = q@.take(n as int).to_set().filter(p);
            proof {
                reveal(Seq::filter);
                order::lemma_listing_step(q@, ids@, n as int);
                assert(q@.take(n + 1).drop_last() =~= q@.take(n as int));
                assert(q@.take(n + 1).to_set().filter(p) =~= if p(r) {
                    gone.insert(r)
                } else {
                    gone
                });
                lemma_without_one_more(roads, gone, r);
            }
            if self.roads.contains_key(&r) {
                let mut notes: Vec<String> = self.notes_on_deleting(r);
                let ghost (before, more) = (warnings@, notes@);
                warnings.append(&mut notes);
                assert(edit::texts(warnings@) =~= edit::texts(before) + edit::texts(more));
                self.delete_road(r);
                applied += 1;
            }
            n += 1;
        }
        proof {
            assert(q@.take(n as int) =~= q@);
            assert(q@.to_set() =~= ids@);
            order::lemma_listing_filter(q@, ids@, p);
            order::lemma_listing_len(q@.filter(p), ids@.filter(p));
        }
        (applied, warnings)
    }

    /// Takes off those of the intersections that are there. No road may start or end at one of
    /// them.
    fn delete_listed_intersections(&mut self, ids: &SortedSet<OriginalIntersection>) -> (applied:
        usize)
        requires
            forall|i: OriginalIntersection, r: OriginalRoad|
                ids@.contains(i) && old(self)@.intersections.contains_key(i)
                    && old(self)@.roads.contains_key(r) ==> !#[trigger] r.touches(i),
        ensures
            final(self)@ == (RawMapView {
                intersections: old(self)@.intersections.remove_keys(ids@),
                ..old(self)@
            }),
            applied == ids@.filter(known(old(self)@.intersections)).len(),
            applied <= ids@.len(),
    {
        let q: Vec<OriginalIntersection> = ids.to_vec();
        let ghost intersections = self.intersections@;
        let ghost p = known(intersections);
        let mut applied: usize = 0;
        let mut n: usize = 0;
        proof {
            reveal(Seq::filter);
            assert(intersections.remove_keys(q@.take(0).to_set()) =~= intersections);
        }
        while n < q.len()
            invariant
                n <= q@.len(),
                order::lists(q@, ids@),
                intersections == old(self)@.intersections,
                p == known(intersections),
                self@ == (RawMapView {
                    intersections: intersections.remove_keys(q@.take(n as int).to_set()),
                    ..old(self)@
                }),
                forall|i: OriginalIntersection, r: OriginalRoad|
                    ids@.contains(i) && intersections.contains_key(i)
                        && old(self)@.roads.contains_key(r) ==> !#[trigger] r.touches(i),
                applied <= n,
                applied == q@.take(n as int).filter(p).len(),
            decreases q@.len() - n,
        {
            let i: OriginalIntersection = q[n];
            proof {
                reveal(Seq::filter);
                order::lemma_listing_step(q@, ids@, n as int);
                assert(q@.take(n + 1).drop_last() =~= q@.take(n as int));
                let before = intersections.remove_keys(q@.take(n as int).to_set());
                assert(intersections.remove_keys(q@.take(n + 1).to_set()) =~= before.remove(i));
                if !p(i) {
                    assert(before.remove(i) =~= before);
                }
            }
            if self.intersections.contains_key(&i) {
                self.delete_intersection(i);
                applied += 1;
            }
            n += 1;
        }
        proof {
            assert(q@.take(n as int) =~= q@);
            assert(q@.to_set() =~= ids@);
            order::lemma_listing_filter(q@, ids@, p);
            order::lemma_listing_len(q@.filter(p), ids@.filter(p));
        }
        applied
    }

    /// Creates or modifies the intersections that are in bounds.
    fn override_intersections_within(
        &mut self,
        overrides: &SortedMap<OriginalIntersection, RawIntersection>,
        in_bounds: &SortedSet<OriginalIntersection>,
    ) -> (applied: usize)
        ensures
            final(self)@ == (RawMapView {
                intersections: old(self)@.intersections.union_prefer_right(
                    overrides@.filter_keys(among(in_bounds@)),
                ),
                ..old(self)@
            }),
            applied == overrides@.dom().filter(among(in_bounds@)).len(),
            applied <= overrides@.dom().len(),
    {
        let q: Vec<OriginalIntersection> = overrides.keys();
        let ghost p = among(in_bounds@);
        let mut chosen: Vec<OriginalIntersection> = Vec::new();
        let mut n: usize = 0;
        proof {
            reveal(Seq::filter);
        }
        while n < q.len()
            invariant
                n <= q@.len(),
                p == among(in_bounds@),
                chosen@ == q@.take(n as int).filter(p),
                chosen@.len() <= n,
            decreases q@.len() - n,
        {
            proof {
                reveal(Seq::filter);
                assert(q@.take(n + 1).drop_last() =~= q@.take(n as int));
            }
            if in_bounds.contains(&q[n]) {
                chosen.push(q[n]);
            }
            n += 1;
        }
        proof {
            assert(q@.take(n as int) =~= q@);
            order::lemma_listing_filter(q@, overrides@.dom(), p);
            order::lemma_listing_len(chosen@, overrides@.dom().filter(p));
            assert(chosen@.to_set() =~= overrides@.dom().filter(p));
        }
        self.intersections.overlay(overrides, &chosen);
        chosen.len()
    }

    /// Creates or modifies the roads both of whose ends are on the map.
    fn override_linked_roads(&mut self, overrides: &SortedMap<OriginalRoad, RawRoad>) -> (applied:
        usize)
        ensures
            final(self)@ == (RawMapView {
                roads: old(self)@.roads.union_prefer_right(
                    overrides@.filter_keys(linked(old(self)@.intersections)),
                ),
                ..old(self)@
            }),
            applied == overrides@.dom().filter(linked(old(self)@.intersections)).len(),
            applied <= overrides@.dom().len(),
    {
        let q: Vec<OriginalRoad> = overrides.keys();
        let ghost p = linked(self@.intersections);
        let mut chosen: Vec<OriginalRoad> = Vec::new();
        let mut n: usize = 0;
        proof {
            reveal(Seq::filter);
        }
        while n < q.len()
            invariant
                n <= q@.len(),
                p == linked(self@.intersections),
                chosen@ == q@.take(n as int).filter(p),
                chosen@.len() <= n,
                *self == *old(self),
            decreases q@.len() - n,
        {
            proof {
                reveal(Seq::filter);
                assert(q@.take(n + 1).drop_last() =~= q@.take(n as int));
            }
            let id: OriginalRoad = q[n];
            if self.intersections.contains_key(&id.i1) && self.intersections.contains_key(&id.i2) {
                chosen.push(id);
            }
            n += 1;
        }
        proof {
            assert(q@.take(n as int) =~= q@);
            order::lemma_listing_filter(q@, overrides@.dom(), p);
            order::lemma_listing_len(chosen@, overrides@.dom().filter(p));
            assert(chosen@.to_set() =~= overrides@.dom().filter(p));
        }
        self.roads.overlay(overrides, &chosen);
        chosen.len()
    }

    /// Whether there is a road at `i` that the fixes leave.
    fn has_road_left(&self, fixes: &MapFixes, i: OriginalIntersection) -> (r: bool)
        requires
            self@.intersections.contains_key(i),
        ensures
            r == keeps_a_road(self@, fixes@, i),
    {
        let keys: Vec<OriginalRoad> = self.roads_per_intersection(i);
        let mut n: usize = 0;
        while n < keys.len()
            invariant
                n <= keys@.len(),
                self@.intersections.contains_key(i),
                forall|r: OriginalRoad| #[trigger]
                    keys@.contains(r) <==> self@.roads.contains_key(r) && r.touches(i),
                forall|k: int| 0 <= k < n ==> fixes@.delete_roads.contains(#[trigger] keys@[k]),
            decreases keys@.len() - n,
        {
            let r: OriginalRoad = keys[n];
            if !fixes.delete_roads.contains(&r) {
                assert(keys@.contains(r));
                assert(self@.roads.contains_key(r));
                return true;
            }
            n += 1;
        }
        proof {
            assert forall|r: OriginalRoad| #[trigger]
                self@.roads.contains_key(r) && r.touches(i) implies fixes@.delete_roads.contains(
                r,
            ) by {
                assert(keys@.contains(r));
            }
        }
        false
    }

    /// The first of the intersections to delete that has a road that would be left. Where there is
    /// one, the fixes cannot be applied.
    pub fn first_stuck(&self, fixes: &MapFixes) -> (stuck: Option<OriginalIntersection>)
        ensures
            is_first_stuck(self@, fixes@, stuck),
            stuck is None <==> appliable(self@, fixes@),
            stuck is None <==> forall|i: OriginalIntersection, r: OriginalRoad| #[trigger]
                fixes.delete_intersections@.contains(i) && self.intersections@.contains_key(i)
                    && #[trigger] self.roads@.contains_key(r) && !fixes.delete_roads@.contains(r)
                    ==> r.i1 != i && r.i2 != i,
            stuck matches Some(i) ==> {
                &&& fixes.delete_intersections@.contains(i)
                &&& self.intersections@.contains_key(i)
                &&& exists|r: OriginalRoad| #[trigger]
                    self.roads@.contains_key(r) && !fixes.delete_roads@.contains(r) && (r.i1 == i
                        || r.i2 == i)
                &&& forall|other: OriginalIntersection, r: OriginalRoad| #[trigger]
                    fixes.delete_intersections@.contains(other) && self.intersections@.contains_key(
                        other,
                    ) && #[trigger] self.roads@.contains_key(r) && !fixes.delete_roads@.contains(r)
                        && (r.i1 == other || r.i2 == other) ==> i.osm_node_id <= other.osm_node_id
            },
    {
        let ids: Vec<OriginalIntersection> = fixes.delete_intersections.to_vec();
        let mut n: usize = 0;
        while n < ids.len()
            invariant
                n <= ids@.len(),
                order::lists(ids@, fixes@.delete_intersections),
                forall|k: int| 0 <= k < n ==> !keeps_a_road(self@, fixes@, #[trigger] ids@[k]),
            decreases ids@.len() - n,
        {
            let i: OriginalIntersection = ids[n];
            if self.intersections.contains_key(&i) && self.has_road_left(fixes, i) {
                proof {
                    assert(ids@.contains(i));
                    assert forall|other: OriginalIntersection| #[trigger]
                        fixes@.delete_intersections.contains(other) && keeps_a_road(
                            self@,
                            fixes@,
                            other,
                        ) implies i.osm_node_id <= other.osm_node_id by {
                        assert(ids@.contains(other));
                        let k = choose|k: int| 0 <= k < ids@.len() && ids@[k] == other;
                        assert(n <= k);
                        assert(ids@[n as int] == i);
                    }
                    let r = choose|r: OriginalRoad| #[trigger]
                        self@.roads.contains_key(r) && !fixes@.delete_roads.contains(r)
                            && r.touches(i);
                    assert(r.touches(i));
                }
                return Some(i);
            }
            n += 1;
        }
        proof {
            assert forall|i: OriginalIntersection, r: OriginalRoad|
                fixes@.delete_intersections.contains(i) && self@.intersections.contains_key(i)
                    && self@.roads.contains_key(r) && !fixes@.delete_roads.contains(
                    r,
                ) implies !#[trigger] r.touches(i) by {
                assert(ids@.contains(i));
                let k = choose|k: int| 0 <= k < ids@.len() && ids@[k] == i;
                assert(!keeps_a_road(self@, fixes@, ids@[k]));
            }
            assert forall|i: OriginalIntersection, r: OriginalRoad| #[trigger]
                fixes.delete_intersections@.contains(i) && self.intersections@.contains_key(i)
                    && #[trigger] self.roads@.contains_key(r) && !fixes.delete_roads@.contains(
                    r,
                ) implies r.i1 != i && r.i2 != i by {
                assert(!r.touches(i));
            }
        }
        None
    }

    /// Whether the fixes can be applied: none of the intersections to delete has a road that would
    /// be left.
    pub fn can_apply_fixes(&self, fixes: &MapFixes) -> (r: bool)
        ensures
            r == appliable(self@, fixes@),
            r <==> forall|i: OriginalIntersection, k: OriginalRoad| #[trigger]
                fixes.delete_intersections@.contains(i) && self.intersections@.contains_key(i)
                    && #[trigger] self.roads@.contains_key(k) && !fixes.delete_roads@.contains(k)
                    ==> k.i1 != i && k.i2 != i,
    {
        self.first_stuck(fixes).is_none()
    }

    /// Applies the fixes that fit this map: roads and intersections that are there are deleted,
    /// then intersections in bounds and then roads whose ends are both there are created or
    /// modified. `in_bounds` has the intersections to create or modify whose point lies within
    /// the bounds of the map. The fixes must be relative to those bounds.
    pub fn apply_fixes(
        &mut self,
        name: &str,
        fixes: &MapFixes,
        in_bounds: &SortedSet<OriginalIntersection>,
    ) -> (report: FixReport)
        requires
            appliable(old(self)@, fixes@),
        ensures
            final(self)@ == apply_view(old(self)@, fixes@, in_bounds@),
            report.name@ == name@,
            report.applied == applied_count(old(self)@, fixes@, in_bounds@),
            report.total == fixes_count(fixes@),
            edit::texts(report.warnings@) == notes_on_deleting_all(
                old(self)@.roads,
                order::in_order(fixes@.delete_roads),
            ),
            forall|i: OriginalIntersection| #[trigger]
                fixes.override_intersections@.contains_key(i) && in_bounds@.contains(i)
                    ==> final(self).intersections@.contains_key(i) && final(self).intersections@[i]
                    == fixes.override_intersections@[i],
            forall|i: OriginalIntersection|
                !(fixes.override_intersections@.contains_key(i) && in_bounds@.contains(i)) ==> (
                #[trigger] final(self).intersections@.contains_key(i)
                    <==> old(self).intersections@.contains_key(i)
                    && !fixes.delete_intersections@.contains(i)),
            forall|i: OriginalIntersection| #[trigger]
                final(self).intersections@.contains_key(i) && !(
                fixes.override_intersections@.contains_key(i) && in_bounds@.contains(i))
                    ==> final(self).intersections@[i] == old(self).intersections@[i],
            forall|k: OriginalRoad| #[trigger]
                fixes.override_roads@.contains_key(k)
                    && final(self).intersections@.contains_key(k.i1)
                    && final(self).intersections@.contains_key(k.i2)
                    ==> final(self).roads@.contains_key(k) && final(self).roads@[k]
                    == fixes.override_roads@[k],
            forall|k: OriginalRoad|
                !(fixes.override_roads@.contains_key(k)
                    && final(self).intersections@.contains_key(k.i1)
                    && final(self).intersections@.contains_key(k.i2)) ==> (
                #[trigger] final(self).roads@.contains_key(k) <==> old(self).roads@.contains_key(k)
                    && !fixes.delete_roads@.contains(k)),
            forall|k: OriginalRoad| #[trigger]
                final(self).roads@.contains_key(k) && !(fixes.override_roads@.contains_key(k)
                    && final(self).intersections@.contains_key(k.i1)
                    && final(self).intersections@.contains_key(k.i2)) ==> {
                    let road = old(self).roads@[k];
                    let left = final(self).roads@[k];
                    &&& left.center_points == road.center_points
                    &&& left.osm_tags == road.osm_tags
                    &&& left.turn_restrictions == road.turn_restrictions.filter(
                        |t: (RestrictionType, OriginalRoad)|
                            !(old(self).roads@.contains_key(t.1)
                                && fixes.delete_roads@.contains(t.1)),
                    )
                },
            final(self).buildings@ == old(self).buildings@,
            final(self)@.areas == old(self)@.areas,
            final(self).name@ == old(self).name@,
            final(self).gps_bounds == old(self).gps_bounds,
            report.applied == fixes.delete_roads@.filter(
                |r: OriginalRoad| old(self).roads@.contains_key(r),
            ).len() + fixes.delete_intersections@.filter(
                |i: OriginalIntersection| old(self).intersections@.contains_key(i),
            ).len() + fixes.override_intersections@.dom().filter(
                |i: OriginalIntersection| in_bounds@.contains(i),
            ).len() + fixes.override_roads@.dom().filter(
                |r: OriginalRoad|
                    final(self).intersections@.contains_key(r.i1)
                        && final(self).intersections@.contains_key(r.i2),
            ).len(),
            report.total == fixes.delete_roads@.len() + fixes.delete_intersections@.len()
                + fixes.override_intersections@.dom().len() + fixes.override_roads@.dom().len(),
    {
        let (n1, warnings) = self.delete_listed_roads(&fixes.delete_roads);
        let n2: usize = self.delete_listed_intersections(&fixes.delete_intersections);
        let n3: usize = self.override_intersections_within(
            &fixes.override_intersections,
            in_bounds,
        );
        let n4: usize = self.override_linked_roads(&fixes.override_roads);
        let total: u128 = fixes.delete_roads.len() as u128 + fixes.delete_intersections.len()
            as u128 + fixes.override_intersections.len() as u128 + fixes.override_roads.len()
            as u128;
        proof {
            fixes_laws::law_apply_key_by_key(old(self)@, fixes@, in_bounds@, self@);
            fixes_laws::law_applied_count(old(self)@, fixes@, in_bounds@, self@);
            assert forall|k: OriginalRoad| #[trigger]
                self.roads@.contains_key(k) && !(fixes.override_roads@.contains_key(k)
                    && self.intersections@.contains_key(k.i1) && self.intersections@.contains_key(
                    k.i2,
                )) implies self.roads@[k].turn_restrictions
                == old(self).roads@[k].turn_restrictions.filter(
                |t: (RestrictionType, OriginalRoad)|
                    !(old(self).roads@.contains_key(t.1) && fixes.delete_roads@.contains(t.1)),
            ) by {
                let gone = fixes@.delete_roads.filter(known(old(self)@.roads));
                seqs::lemma_filter_agree(
                    old(self).roads@[k].turn_restrictions,
                    edit::leads_elsewhere(gone),
                    |t: (RestrictionType, OriginalRoad)|
                        !(old(self).roads@.contains_key(t.1) && fixes.delete_roads@.contains(t.1)),
                );
            }
        }
        let applied: u128 = n1 as u128 + n2 as u128 + n3 as u128 + n4 as u128;
        FixReport { name: name.to_owned(), applied, total, warnings }
    }
}

} // verus!
