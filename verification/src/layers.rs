//! Master and local fixes: which of them a map gets, and which of its edits go to which.
use crate::edit;
use crate::fixes;
use crate::fixes_laws;
use crate::fixes::FixReport;
use crate::fixes::MapFixes;
use crate::fixes::MapFixesView;
use crate::geometry::GPSBounds;
use crate::geometry::Pt2D;
use crate::ids::OriginalIntersection;
use crate::ids::OriginalRoad;
use crate::order;
use crate::raw::RawIntersection;
use crate::raw::RawIntersectionView;
use crate::raw::RawMap;
use crate::raw::RawMapView;
use crate::raw::RawRoad;
use crate::raw::RawRoadView;
use crate::sorted_map;
use crate::sorted_map::SortedMap;
use crate::sorted_set::SortedSet;
use crate::value::Value;
use vstd::prelude::*;

verus! {

/// Fixes along with the intersections among those to create or modify whose point lies within
/// the bounds of the map to which the fixes go.
#[derive(Debug)]
pub struct LocatedFixes {
    pub fixes: MapFixes,
    pub in_bounds: SortedSet<OriginalIntersection>,
}

/// What `LocatedFixes` stands for.
#[verifier::ext_equal]
pub struct LocatedFixesView {
    pub fixes: MapFixesView,
    pub in_bounds: Set<OriginalIntersection>,
}

impl View for LocatedFixes {
    type V = LocatedFixesView;

    open spec fn view(&self) -> LocatedFixesView {
        LocatedFixesView { fixes: self.fixes@, in_bounds: self.in_bounds@ }
    }
}

/// The map is the one that the master fixes were made for.
pub open spec fn is_master(m: RawMapView) -> bool {
    m.name == "huge_seattle"@
}

/// The given fixes, or none that change anything.
pub open spec fn or_none(f: Option<&LocatedFixes>, gps_bounds: GPSBounds) -> LocatedFixesView {
    match f {
        Some(f) => f@,
        None => LocatedFixesView { fixes: fixes::no_fixes(gps_bounds), in_bounds: Set::empty() },
    }
}

/// The map once a layer of fixes has been applied.
pub open spec fn with_layer(m: RawMapView, f: LocatedFixesView) -> RawMapView {
    fixes::apply_view(m, f.fixes, f.in_bounds)
}

/// The map once all its fixes have been applied: the master fixes, and for a map other than the
/// master map its own on top.
pub open spec fn with_all_layers(
    m: RawMapView,
    master: LocatedFixesView,
    local: LocatedFixesView,
) -> RawMapView {
    if is_master(m) {
        with_layer(m, master)
    } else {
        with_layer(with_layer(m, master), local)
    }
}

/// All fixes can be applied to the map one after the other. A map other than the master map
/// cannot do without master fixes.
pub open spec fn all_appliable(
    m: RawMapView,
    master: Option<&LocatedFixes>,
    local: Option<&LocatedFixes>,
) -> bool {
    &&& !is_master(m) ==> master is Some
    &&& fixes::appliable(m, or_none(master, m.gps_bounds).fixes)
    &&& !is_master(m) ==> fixes::appliable(
        with_layer(m, or_none(master, m.gps_bounds)),
        or_none(local, m.gps_bounds).fixes,
    )
}

/// The first intersection that keeps one of the layers from being applied, if there is one.
pub open spec fn is_first_stuck_of_all(
    m: RawMapView,
    master: LocatedFixesView,
    local: LocatedFixesView,
    stuck: Option<OriginalIntersection>,
) -> bool {
    if is_master(m) || !fixes::appliable(m, master.fixes) {
        fixes::is_first_stuck(m, master.fixes, stuck)
    } else {
        fixes::is_first_stuck(with_layer(m, master), local.fixes, stuck)
    }
}

/// The report on fixes of that name.
pub open spec fn reports(
    report: FixReport,
    name: Seq<char>,
    m: RawMapView,
    f: LocatedFixesView,
) -> bool {
    &&& report.name@ == name
    &&& report.applied == fixes::applied_count(m, f.fixes, f.in_bounds)
    &&& report.total == fixes::fixes_count(f.fixes)
    &&& edit::texts(report.warnings@) == fixes::notes_on_deleting_all(
        m.roads,
        order::in_order(f.fixes.delete_roads),
    )
}

/// The difference that turns the roads and intersections of `orig` into those of `now`.
pub open spec fn difference(now: RawMapView, orig: RawMapView) -> MapFixesView {
    MapFixesView {
        gps_bounds: now.gps_bounds,
        delete_roads: orig.roads.dom().difference(now.roads.dom()),
        delete_intersections: orig.intersections.dom().difference(now.intersections.dom()),
        override_intersections: sorted_map::changes(now.intersections, orig.intersections),
        override_roads: sorted_map::changes(now.roads, orig.roads),
    }
}

/// The fixes that are not already among the master fixes.
pub open spec fn beyond(f: MapFixesView, master: MapFixesView) -> MapFixesView {
    MapFixesView {
        gps_bounds: f.gps_bounds,
        delete_roads: f.delete_roads.difference(master.delete_roads),
        delete_intersections: f.delete_intersections.difference(master.delete_intersections),
        override_intersections: sorted_map::changes(
            f.override_intersections,
            master.override_intersections,
        ),
        override_roads: sorted_map::changes(f.override_roads, master.override_roads),
    }
}

impl RawMap {
    /// Whether this is the map that the master fixes were made for.
    pub fn is_master_map(&self) -> (r: bool)
        ensures
            r == is_master(self@),
            r <==> self.name@ == "huge_seattle"@,
    {
        self.name == "huge_seattle".to_owned()
    }

    fn apply_layer(&mut self, name: &str, layer: Option<&LocatedFixes>) -> (report: FixReport)
        requires
            fixes::appliable(old(self)@, or_none(layer, old(self)@.gps_bounds).fixes),
        ensures
            final(self)@ == with_layer(old(self)@, or_none(layer, old(self)@.gps_bounds)),
            reports(report, name@, old(self)@, or_none(layer, old(self)@.gps_bounds)),
    {
        match layer {
            Some(f) => self.apply_fixes(name, &f.fixes, &f.in_bounds),
            None => {
                let f: MapFixes = MapFixes::new(self.gps_bounds);
                self.apply_fixes(name, &f, &SortedSet::new())
            },
        }
    }

    /// The first intersection that some layer of fixes is to delete and that has a road that would
    /// be left. The local fixes meet the map as the master fixes leave it.
    pub fn first_stuck_of_all(
        &self,
        master: Option<&LocatedFixes>,
        local: Option<&LocatedFixes>,
    ) -> (stuck: Option<OriginalIntersection>)
        ensures
            is_first_stuck_of_all(
                self@,
                or_none(master, self@.gps_bounds),
                or_none(local, self@.gps_bounds),
                stuck,
            ),
            stuck is None && (is_master(self@) || master is Some) <==> all_appliable(
                self@,
                master,
                local,
            ),
    {
        let first: Option<OriginalIntersection> = match master {
            Some(f) => self.first_stuck(&f.fixes),
            None => None,
        };
        if self.is_master_map() || first.is_some() {
            return first;
        }
        match local {
            Some(f) => {
                let mut fixed: RawMap = RawMap::blank(self.name.clone(), self.gps_bounds);
                fixed.roads = self.roads.clone();
                fixed.intersections = self.intersections.clone();
                fixed.apply_layer("huge_seattle", master);
                proof {
                    let full = with_layer(self@, or_none(master, self@.gps_bounds));
                    assert(fixed@.roads == full.roads);
                    assert(fixed@.intersections == full.intersections);
                    assert forall|i: OriginalIntersection|
                        fixes::keeps_a_road(fixed@, f@.fixes, i) == #[trigger] fixes::keeps_a_road(
                            full,
                            f@.fixes,
                            i,
                        ) by {}
                }
                fixed.first_stuck(&f.fixes)
            },
            None => None,
        }
    }

    /// Whether `apply_all_fixes` can be called with these fixes.
    pub fn can_apply_all_fixes(
        &self,
        master: Option<&LocatedFixes>,
        local: Option<&LocatedFixes>,
    ) -> (r: bool)
        ensures
            r == all_appliable(self@, master, local),
            r <==> {
                let fixed = match master {
                    Some(f) => fixes::apply_view(self@, f.fixes@, f.in_bounds@),
                    None => self@,
                };
                &&& master is Some || self.name@ == "huge_seattle"@
                &&& master matches Some(f) ==> fixes::appliable(self@, f.fixes@)
                &&& self.name@ == "huge_seattle"@ || (local matches Some(f) ==> fixes::appliable(
                    fixed,
                    f.fixes@,
                ))
            },
    {
        proof {
            fixes_laws::law_all_appliable(self@, master, local);
        }
        (self.is_master_map() || master.is_some()) && self.first_stuck_of_all(
            master,
            local,
        ).is_none()
    }

    /// Applies the master fixes, and on a map other than the master map its local fixes on top.
    /// Where there are no fixes of a kind, nothing is applied; only a map other than the master
    /// map cannot do without master fixes. Returns a report for each layer.
    pub fn apply_all_fixes(
        &mut self,
        master: Option<&LocatedFixes>,
        local: Option<&LocatedFixes>,
    ) -> (done: Vec<FixReport>)
        requires
            all_appliable(old(self)@, master, local),
        ensures
            final(self)@ == with_all_layers(
                old(self)@,
                or_none(master, old(self)@.gps_bounds),
                or_none(local, old(self)@.gps_bounds),
            ),
            done@.len() == if is_master(old(self)@) {
                1int
            } else {
                2
            },
            reports(
                done@[0],
                "huge_seattle"@,
                old(self)@,
                or_none(master, old(self)@.gps_bounds),
            ),
            !is_master(old(self)@) ==> reports(
                done@[1],
                old(self)@.name,
                with_layer(old(self)@, or_none(master, old(self)@.gps_bounds)),
                or_none(local, old(self)@.gps_bounds),
            ),
            done@[0].name@ == "huge_seattle"@,
            ({
                let after_master = match master {
                    Some(f) => fixes::apply_view(old(self)@, f.fixes@, f.in_bounds@),
                    None => old(self)@,
                };
                &&& master matches Some(f) ==> {
                    &&& done@[0].applied == fixes::applied_count(
                        old(self)@,
                        f.fixes@,
                        f.in_bounds@,
                    )
                    &&& done@[0].total == fixes::fixes_count(f.fixes@)
                    &&& edit::texts(done@[0].warnings@) == fixes::notes_on_deleting_all(
                        old(self).roads@,
                        order::in_order(f.fixes.delete_roads@),
                    )
                }
                &&& master is None ==> done@[0].applied == 0 && done@[0].total == 0
                    && done@[0].warnings@.len() == 0
                &&& if old(self).name@ == "huge_seattle"@ {
                    &&& done@.len() == 1
                    &&& final(self)@ == after_master
                } else {
                    &&& done@.len() == 2
                    &&& done@[1].name@ == old(self).name@
                    &&& local matches Some(f) ==> {
                        &&& done@[1].applied == fixes::applied_count(
                            after_master,
                            f.fixes@,
                            f.in_bounds@,
                        )
                        &&& done@[1].total == fixes::fixes_count(f.fixes@)
                        &&& edit::texts(done@[1].warnings@) == fixes::notes_on_deleting_all(
                            after_master.roads,
                            order::in_order(f.fixes.delete_roads@),
                        )
                    }
                    &&& local is None ==> done@[1].applied == 0 && done@[1].total == 0
                        && done@[1].warnings@.len() == 0
                    &&& final(self)@ == match local {
                        Some(f) => fixes::apply_view(after_master, f.fixes@, f.in_bounds@),
                        None => after_master,
                    }
                }
            }),
            forall|i: OriginalIntersection|
                old(self).name@ != "huge_seattle"@ ==> #[trigger] final(self).intersections@.get(i)
                    == match local {
                    Some(f) if f.fixes.override_intersections@.contains_key(i)
                        && f.in_bounds@.contains(i) => Some(f.fixes.override_intersections@[i]),
                    Some(f) if f.fixes.delete_intersections@.contains(i) => None,
                    _ => {
                        let f = master->0;
                        if f.fixes.override_intersections@.contains_key(i) && f.in_bounds@.contains(
                            i,
                        ) {
                            Some(f.fixes.override_intersections@[i])
                        } else if f.fixes.delete_intersections@.contains(i) {
                            None
                        } else {
                            old(self).intersections@.get(i)
                        }
                    },
                },
    {
        let mut done: Vec<FixReport> = Vec::new();
        if self.is_master_map() {
            done.push(self.apply_layer("huge_seattle", master));
        } else {
            done.push(self.apply_layer("huge_seattle", master));
            let name: String = self.name.clone();
            done.push(self.apply_layer(name.as_str(), local));
        }
        proof {
            let m = old(self)@;
            let (first, second) = (or_none(master, m.gps_bounds), or_none(local, m.gps_bounds));
            let fixed = with_layer(m, first);
            fixes_laws::law_layers_in_turn(m, first, second);
            fixes_laws::law_no_fixes(m, m.gps_bounds, Set::empty());
            fixes_laws::law_no_fixes(fixed, m.gps_bounds, Set::empty());
            fixes_laws::law_nothing_to_report(m, m.gps_bounds);
            fixes_laws::law_nothing_to_report(fixed, m.gps_bounds);
            if m.name != "huge_seattle"@ {
                assert forall|i: OriginalIntersection| #[trigger]
                    self.intersections@.get(i) == with_all_layers(
                        m,
                        first,
                        second,
                    ).intersections.get(i) by {
                    fixes_laws::law_layers_intersections(m, first, second, i);
                }
            }
        }
        done
    }

    /// The fixes that turn `orig` into this map, buildings aside. For a map other than the master
    /// map, what it just inherited from the master fixes is filtered out.
    pub fn generate_fixes(&self, orig: &RawMap, master: Option<&MapFixes>) -> (f: MapFixes)
        requires
            !is_master(self@) ==> master is Some,
        ensures
            is_master(self@) ==> f@ == difference(self@, orig@),
            !is_master(self@) ==> f@ == beyond(difference(self@, orig@), master->0@),
            forall|r: OriginalRoad| #[trigger]
                f.delete_roads@.contains(r) <==> orig.roads@.contains_key(r)
                    && !self.roads@.contains_key(r) && (self.name@ == "huge_seattle"@
                    || !master->0.delete_roads@.contains(r)),
            forall|i: OriginalIntersection| #[trigger]
                f.delete_intersections@.contains(i) <==> orig.intersections@.contains_key(i)
                    && !self.intersections@.contains_key(i) && (self.name@ == "huge_seattle"@
                    || !master->0.delete_intersections@.contains(i)),
            forall|i: OriginalIntersection| #[trigger]
                f.override_intersections@.contains_key(i) <==> self.intersections@.contains_key(i)
                    && !(orig.intersections@.contains_key(i) && orig.intersections@[i]
                    == self.intersections@[i]) && (self.name@ == "huge_seattle"@ || !(
                master->0.override_intersections@.contains_key(i)
                    && master->0.override_intersections@[i] == self.intersections@[i])),
            forall|i: OriginalIntersection| #[trigger]
                f.override_intersections@.contains_key(i) ==> f.override_intersections@[i]
                    == self.intersections@[i],
            forall|r: OriginalRoad| #[trigger]
                f.override_roads@.contains_key(r) <==> self.roads@.contains_key(r) && !(
                orig.roads@.contains_key(r) && orig.roads@[r] == self.roads@[r]) && (self.name@
                    == "huge_seattle"@ || !(master->0.override_roads@.contains_key(r)
                    && master->0.override_roads@[r] == self.roads@[r])),
            forall|r: OriginalRoad| #[trigger]
                f.override_roads@.contains_key(r) ==> f.override_roads@[r] == self.roads@[r],
            self.name@ != "huge_seattle"@ ==> f.delete_roads@.disjoint(master->0.delete_roads@)
                && f.delete_intersections@.disjoint(master->0.delete_intersections@),
            f.gps_bounds == self.gps_bounds,
    {
        let mut f: MapFixes = MapFixes::new(self.gps_bounds);

        // What was deleted?
        f.delete_roads =
        SortedSet::from_keys(&orig.roads.keys()).difference(
            &SortedSet::from_keys(&self.roads.keys()),
        );
        f.delete_intersections =
        SortedSet::from_keys(&orig.intersections.keys()).difference(
            &SortedSet::from_keys(&self.intersections.keys()),
        );

        // What was created or modified?
        f.override_intersections = self.intersections.changed_from(&orig.intersections);
        f.override_roads = self.roads.changed_from(&orig.roads);

        if !self.is_master_map() {
            let master: &MapFixes = master.unwrap();
            f.delete_roads = f.delete_roads.difference(&master.delete_roads);
            f.delete_intersections =
            f.delete_intersections.difference(&master.delete_intersections);
            f.override_intersections =
            f.override_intersections.changed_from(&master.override_intersections);
            f.override_roads = f.override_roads.changed_from(&master.override_roads);
        }
        proof {
            if is_master(self@) {
                assert(f@ =~= difference(self@, orig@));
                fixes_laws::law_recorded(self@, orig@, f@);
            } else {
                assert(f@ =~= beyond(difference(self@, orig@), master->0@));
                fixes_laws::law_recorded_on_top(self@, orig@, master->0@, f@);
            }
        }
        f
    }
}

/// The intersections, each at its new point.
pub open spec fn with_points(
    intersections: Map<OriginalIntersection, RawIntersectionView>,
    points: Map<OriginalIntersection, Pt2D>,
) -> Map<OriginalIntersection, RawIntersectionView> {
    intersections.map_entries(
        |k: OriginalIntersection, v: RawIntersectionView|
            RawIntersectionView { point: points[k], ..v },
    )
}

/// The roads, each along its new center line.
pub open spec fn with_lines(
    roads: Map<OriginalRoad, RawRoadView>,
    lines: Map<OriginalRoad, Seq<Pt2D>>,
) -> Map<OriginalRoad, RawRoadView> {
    roads.map_entries(
        |k: OriginalRoad, v: RawRoadView| RawRoadView { center_points: lines[k], ..v },
    )
}

impl MapFixes {
    /// Makes the fixes relative to other bounds. `points` and `lines` have the points of the
    /// intersections and the center lines of the roads to create or modify, as they are relative
    /// to those bounds. Only makes sense for master fixes.
    pub fn remap_pts(
        &mut self,
        local_gps_bounds: GPSBounds,
        points: &SortedMap<OriginalIntersection, Pt2D>,
        lines: &SortedMap<OriginalRoad, Vec<Pt2D>>,
    )
        requires
            old(self)@.override_intersections.dom().subset_of(points@.dom()),
            old(self)@.override_roads.dom().subset_of(lines@.dom()),
        ensures
            final(self)@ == (MapFixesView {
                gps_bounds: local_gps_bounds,
                override_intersections: with_points(old(self)@.override_intersections, points@),
                override_roads: with_lines(old(self)@.override_roads, lines@),
                ..old(self)@
            }),
            final(self).gps_bounds == local_gps_bounds,
            final(self).delete_roads@ == old(self).delete_roads@,
            final(self).delete_intersections@ == old(self).delete_intersections@,
            forall|i: OriginalIntersection| #[trigger]
                final(self).override_intersections@.contains_key(i)
                    <==> old(self).override_intersections@.contains_key(i),
            forall|i: OriginalIntersection| #[trigger]
                old(self).override_intersections@.contains_key(i) ==> {
                    let was = old(self).override_intersections@[i];
                    let moved = final(self).override_intersections@[i];
                    &&& moved.point == points@[i]
                    &&& moved.intersection_type == was.intersection_type
                    &&& moved.label == was.label
                    &&& moved.synthetic == was.synthetic
                },
            forall|r: OriginalRoad| #[trigger]
                final(self).override_roads@.contains_key(r)
                    <==> old(self).override_roads@.contains_key(r),
            forall|r: OriginalRoad| #[trigger]
                old(self).override_roads@.contains_key(r) ==> {
                    let was = old(self).override_roads@[r];
                    let moved = final(self).override_roads@[r];
                    &&& moved.center_points == lines@[r]
                    &&& moved.osm_tags == was.osm_tags
                    &&& moved.turn_restrictions == was.turn_restrictions
                },
    {
        let ids: Vec<OriginalIntersection> = self.override_intersections.keys();
        let ghost intersections = self.override_intersections@;
        let mut n: usize = 0;
        while n < ids.len()
            invariant
                n <= ids@.len(),
                order::lists(ids@, intersections.dom()),
                intersections == old(self)@.override_intersections,
                intersections.dom().subset_of(points@.dom()),
                self@ == (MapFixesView {
                    override_intersections: self@.override_intersections,
                    ..old(self)@
                }),
                self@.override_intersections.dom() == intersections.dom(),
                forall|k: OriginalIntersection| #[trigger]
                    intersections.contains_key(k) ==> self@.override_intersections[k] == (
                    if ids@.take(n as int).contains(k) {
                        RawIntersectionView { point: points@[k], ..intersections[k] }
                    } else {
                        intersections[k]
                    }),
            decreases ids@.len() - n,
        {
            let id: OriginalIntersection = ids[n];
            proof {
                order::lemma_listing_step(ids@, intersections.dom(), n as int);
            }
            let mut i: RawIntersection = self.override_intersections.remove(&id).unwrap();
            i.point = *points.get(&id).unwrap();
            self.override_intersections.insert(id, i);
            assert(self@.override_intersections.dom() =~= intersections.dom());
            n += 1;
        }
        proof {
            assert(ids@.take(n as int) =~= ids@);
            assert(self@.override_intersections =~= with_points(intersections, points@));
        }

        let road_ids: Vec<OriginalRoad> = self.override_roads.keys();
        let ghost roads = self.override_roads@;
        let mut m: usize = 0;
        while m < road_ids.len()
            invariant
                m <= road_ids@.len(),
                order::lists(road_ids@, roads.dom()),
                roads == old(self)@.override_roads,
                roads.dom().subset_of(lines@.dom()),
                self@ == (MapFixesView {
                    override_intersections: with_points(
                        old(self)@.override_intersections,
                        points@,
                    ),
                    override_roads: self@.override_roads,
                    ..old(self)@
                }),
                self@.override_roads.dom() == roads.dom(),
                forall|k: OriginalRoad| #[trigger]
                    roads.contains_key(k) ==> self@.override_roads[k] == (if road_ids@.take(
                        m as int,
                    ).contains(k) {
                        RawRoadView { center_points: lines@[k], ..roads[k] }
                    } else {
                        roads[k]
                    }),
            decreases road_ids@.len() - m,
        {
            let id: OriginalRoad = road_ids[m];
            proof {
                order::lemma_listing_step(road_ids@, roads.dom(), m as int);
            }
            let mut r: RawRoad = self.override_roads.remove(&id).unwrap();
            r.center_points = lines.get(&id).unwrap().copied();
            self.override_roads.insert(id, r);
            assert(self@.override_roads.dom() =~= roads.dom());
            m += 1;
        }
        proof {
            assert(road_ids@.take(m as int) =~= road_ids@);
            assert(self@.override_roads =~= with_lines(roads, lines@));
        }
        self.gps_bounds = local_gps_bounds;
    }
}

} // verus!
