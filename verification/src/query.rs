//! What can be asked of a raw map.
use crate::ids::OriginalBuilding;
use crate::ids::OriginalIntersection;
use crate::ids::OriginalRoad;
use crate::laws;
use crate::order;
use crate::raw::RawMap;
use crate::raw::RawMapView;
use crate::raw::RawRoadView;
use vstd::prelude::*;

verus! {

/// The road starts or ends at `i`.
pub open spec fn touching(i: OriginalIntersection) -> spec_fn(OriginalRoad) -> bool {
    |r: OriginalRoad| r.touches(i)
}

/// The roads that start or end at `i`, in increasing order.
pub open spec fn roads_at(
    roads: Map<OriginalRoad, RawRoadView>,
    i: OriginalIntersection,
) -> Seq<OriginalRoad> {
    order::in_order(roads.dom().filter(touching(i)))
}

impl RawMapView {
    /// Some intersection has this id.
    pub open spec fn uses_node_id(self, id: int) -> bool {
        exists|i: OriginalIntersection| #[trigger]
            self.intersections.contains_key(i) && i.osm_node_id == id
    }

    /// Some road, building or area has this id.
    pub open spec fn uses_way_id(self, id: int) -> bool {
        ||| exists|r: OriginalRoad| #[trigger] self.roads.contains_key(r) && r.osm_way_id == id
        ||| exists|b: OriginalBuilding| #[trigger]
            self.buildings.contains_key(b) && b.osm_way_id == id
        ||| exists|n: int|
            0 <= n < self.areas.len() && (#[trigger] self.areas[n]).osm_id == id
    }
}

impl RawMap {
    /// The roads that start or end at `i`, in increasing order.
    pub fn roads_per_intersection(&self, i: OriginalIntersection) -> (results: Vec<OriginalRoad>)
        ensures
            results@ == roads_at(self@.roads, i),
            self@.roads.dom().finite(),
            order::is_increasing(results@),
            forall|r: OriginalRoad| #[trigger]
                results@.contains(r) <==> self@.roads.contains_key(r) && r.touches(i),
            forall|r: OriginalRoad| #[trigger]
                results@.contains(r) <==> self.roads@.contains_key(r) && (r.i1 == i || r.i2 == i),
            forall|a: int, b: int|
                0 <= a < b < results@.len() ==> order::Key::before(
                    #[trigger] results@[a],
                    #[trigger] results@[b],
                ),
    {
        let keys: Vec<OriginalRoad> = self.roads.keys();
        let mut results: Vec<OriginalRoad> = Vec::new();
        let mut n: usize = 0;
        proof {
            reveal(Seq::filter);
        }
        while n < keys.len()
            invariant
                n <= keys@.len(),
                results@ == keys@.take(n as int).filter(touching(i)),
            decreases keys@.len() - n,
        {
            let id: OriginalRoad = keys[n];
            proof {
                reveal(Seq::filter);
                assert(keys@.take(n + 1).drop_last() =~= keys@.take(n as int));
            }
            if id.i1 == i || id.i2 == i {
                results.push(id);
            }
            n += 1;
        }
        proof {
            assert(keys@.take(n as int) =~= keys@);
            order::lemma_listing_filter(keys@, self.roads@.dom(), touching(i));
            let here = self.roads@.dom().filter(touching(i));
            assert forall|r: OriginalRoad| #[trigger]
                results@.contains(r) <==> self@.roads.contains_key(r) && r.touches(i) by {
                assert(here.contains(r) <==> self@.roads.contains_key(r) && r.touches(i));
            }
        }
        results
    }

    /// No road starts or ends at `i`, so it can go.
    pub fn can_delete_intersection(&self, i: OriginalIntersection) -> (r: bool)
        ensures
            r <==> (forall|road: OriginalRoad| #[trigger]
                self@.roads.contains_key(road) ==> !road.touches(i)),
            r <==> (forall|road: OriginalRoad| #[trigger]
                self.roads@.contains_key(road) ==> road.i1 != i && road.i2 != i),
    {
        let connected: Vec<OriginalRoad> = self.roads_per_intersection(i);
        proof {
            if connected@.len() > 0 {
                assert(connected@.contains(connected@[0]));
            }
            if exists|road: OriginalRoad| #[trigger]
                self@.roads.contains_key(road) && road.touches(i) {
                let road = choose|road: OriginalRoad| #[trigger]
                    self@.roads.contains_key(road) && road.touches(i);
                assert(connected@.contains(road));
            }
        }
        connected.len() == 0
    }

    /// The two roads have an intersection in common.
    pub fn can_add_turn_restriction(&self, from: OriginalRoad, to: OriginalRoad) -> (r: bool)
        ensures
            r <==> (exists|i: OriginalIntersection| #[trigger] from.touches(i) && to.touches(i)),
            !r <==> from.i1 != to.i1 && from.i1 != to.i2 && from.i2 != to.i1 && from.i2 != to.i2,
    {
        let r = from.i1 == to.i1 || from.i1 == to.i2 || from.i2 == to.i1 || from.i2 == to.i2;
        proof {
            assert(from.touches(from.i1) && from.touches(from.i2));
        }
        r
    }

    /// An id is in use where the intersection with that id is on the map.
    proof fn lemma_node_ids(&self)
        ensures
            forall|id: i64|
                #![trigger self@.uses_node_id(id as int)]
                #![trigger self.intersections@.contains_key(
                    OriginalIntersection { osm_node_id: id },
                )]
                self@.uses_node_id(id as int) <==> self.intersections@.contains_key(
                    OriginalIntersection { osm_node_id: id },
                ),
    {
        assert forall|id: i64|
            #![trigger self@.uses_node_id(id as int)]
            #![trigger self.intersections@.contains_key(OriginalIntersection { osm_node_id: id })]
            self@.uses_node_id(id as int) <==> self.intersections@.contains_key(
                OriginalIntersection { osm_node_id: id },
            ) by {
            laws::law_node_id_users(self@, id);
        }
    }

    fn has_node_id(&self, id: i64) -> (r: bool)
        ensures
            r == self@.uses_node_id(id as int),
    {
        let i = OriginalIntersection { osm_node_id: id };
        let r = self.intersections.contains_key(&i);
        assert(r == self@.intersections.contains_key(i));
        r
    }

    fn has_way_id(&self, id: i64) -> (r: bool)
        ensures
            r == self@.uses_way_id(id as int),
    {
        let b = OriginalBuilding { osm_way_id: id };
        if self.buildings.contains_key(&b) {
            assert(self@.buildings.contains_key(b));
            return true;
        }
        let keys: Vec<OriginalRoad> = self.roads.keys();
        let mut n: usize = 0;
        while n < keys.len()
            invariant
                n <= keys@.len(),
                order::lists(keys@, self.roads@.dom()),
                forall|j: int| 0 <= j < n ==> (#[trigger] keys@[j]).osm_way_id != id,
            decreases keys@.len() - n,
        {
            if keys[n].osm_way_id == id {
                assert(keys@.contains(keys@[n as int]));
                assert(self@.roads.contains_key(keys@[n as int]));
                return true;
            }
            n += 1;
        }
        let mut m: usize = 0;
        while m < self.areas.len()
            invariant
                m <= self.areas@.len(),
                forall|j: int| 0 <= j < m ==> (#[trigger] self.areas@[j]).osm_id != id,
            decreases self.areas@.len() - m,
        {
            if self.areas[m].osm_id == id {
                assert(self@.areas[m as int].osm_id == id);
                return true;
            }
            m += 1;
        }
        proof {
            assert forall|other: OriginalBuilding| #[trigger]
                self@.buildings.contains_key(other) implies other.osm_way_id != id by {
                assert(other != b);
            }
            assert forall|r: OriginalRoad| #[trigger] self@.roads.contains_key(r) implies
                r.osm_way_id != id by {
                assert(keys@.contains(r));
            }
            assert forall|j: int| 0 <= j < self@.areas.len() implies (
            #[trigger] self@.areas[j]).osm_id != id by {
                assert(self.areas@[j].osm_id != id);
            }
        }
        false
    }

    /// The largest id from `start` down that no intersection has, if there is one.
    pub fn free_node_id(&self, start: i64) -> (id: Option<i64>)
        ensures
            match id {
                Some(id) => {
                    &&& id <= start
                    &&& !self@.uses_node_id(id as int)
                    &&& forall|taken: int|
                        id < taken <= start ==> #[trigger] self@.uses_node_id(taken)
                },
                None => forall|taken: int|
                    i64::MIN <= taken <= start ==> #[trigger] self@.uses_node_id(taken),
            },
            match id {
                Some(id) => {
                    &&& !self.intersections@.contains_key(OriginalIntersection { osm_node_id: id })
                    &&& forall|taken: i64|
                        id < taken <= start ==> #[trigger] self.intersections@.contains_key(
                            OriginalIntersection { osm_node_id: taken },
                        )
                },
                None => forall|taken: i64|
                    taken <= start ==> #[trigger] self.intersections@.contains_key(
                        OriginalIntersection { osm_node_id: taken },
                    ),
            },
    {
        let mut osm_node_id: i64 = start;
        while self.has_node_id(osm_node_id)
            invariant
                osm_node_id <= start,
                forall|taken: int|
                    osm_node_id < taken <= start ==> #[trigger] self@.uses_node_id(taken),
            decreases osm_node_id - i64::MIN,
        {
            if osm_node_id == i64::MIN {
                proof {
                    self.lemma_node_ids();
                }
                return None;
            }
            osm_node_id -= 1;
        }
        proof {
            self.lemma_node_ids();
        }
        Some(osm_node_id)
    }

    /// The largest id from `start` down that no intersection has. Slow, but deterministic.
    pub fn new_osm_node_id(&self, start: i64) -> (id: i64)
        requires
            start < 0,
            exists|free: int| i64::MIN <= free <= start && !#[trigger] self@.uses_node_id(free),
        ensures
            id <= start,
            !self@.uses_node_id(id as int),
            forall|taken: int| id < taken <= start ==> #[trigger] self@.uses_node_id(taken),
            !self.intersections@.contains_key(OriginalIntersection { osm_node_id: id }),
            forall|taken: i64|
                id < taken <= start ==> #[trigger] self.intersections@.contains_key(
                    OriginalIntersection { osm_node_id: taken },
                ),
    {
        self.free_node_id(start).unwrap()
    }

    /// The largest id from `start` down that no road, building or area has, if there is one.
    pub fn free_way_id(&self, start: i64) -> (id: Option<i64>)
        ensures
            match id {
                Some(id) => {
                    &&& id <= start
                    &&& !self@.uses_way_id(id as int)
                    &&& forall|taken: int|
                        id < taken <= start ==> #[trigger] self@.uses_way_id(taken)
                },
                None => forall|taken: int|
                    i64::MIN <= taken <= start ==> #[trigger] self@.uses_way_id(taken),
            },
            id matches Some(id) ==> {
                &&& forall|r: OriginalRoad| #[trigger]
                    self.roads@.contains_key(r) ==> r.osm_way_id != id
                &&& !self.buildings@.contains_key(OriginalBuilding { osm_way_id: id })
                &&& forall|n: int|
                    0 <= n < self.areas@.len() ==> (#[trigger] self.areas@[n]).osm_id != id
            },
    {
        let mut osm_way_id: i64 = start;
        while self.has_way_id(osm_way_id)
            invariant
                osm_way_id <= start,
                forall|taken: int|
                    osm_way_id < taken <= start ==> #[trigger] self@.uses_way_id(taken),
            decreases osm_way_id - i64::MIN,
        {
            if osm_way_id == i64::MIN {
                return None;
            }
            osm_way_id -= 1;
        }
        proof {
            laws::law_way_id_users(self@);
            let b = OriginalBuilding { osm_way_id };
            assert(self@.buildings.contains_key(b) ==> self@.uses_way_id(b.osm_way_id as int));
            assert forall|r: OriginalRoad| #[trigger] self.roads@.contains_key(r) implies
                r.osm_way_id != osm_way_id by {
                assert(self@.roads.contains_key(r));
            }
            assert forall|n: int| 0 <= n < self.areas@.len() implies (
            #[trigger] self.areas@[n]).osm_id != osm_way_id by {
                assert(self@.areas[n].osm_id == self.areas@[n].osm_id);
            }
        }
        Some(osm_way_id)
    }

    /// The largest id from `start` down that no road, building or area has. Slow, but
    /// deterministic.
    pub fn new_osm_way_id(&self, start: i64) -> (id: i64)
        requires
            start < 0,
            exists|free: int| i64::MIN <= free <= start && !#[trigger] self@.uses_way_id(free),
        ensures
            id <= start,
            !self@.uses_way_id(id as int),
            forall|taken: int| id < taken <= start ==> #[trigger] self@.uses_way_id(taken),
            forall|r: OriginalRoad| #[trigger] self.roads@.contains_key(r) ==> r.osm_way_id != id,
            !self.buildings@.contains_key(OriginalBuilding { osm_way_id: id }),
            forall|n: int| 0 <= n < self.areas@.len() ==> (#[trigger] self.areas@[n]).osm_id != id,
    {
        self.free_way_id(start).unwrap()
    }
}

} // verus!
