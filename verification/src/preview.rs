//! What is needed to draw an intersection and its roads.
use crate::ids::OriginalIntersection;
use crate::ids::OriginalRoad;
use crate::order;
use crate::query;
use crate::raw::IntersectionType;
use crate::raw::RawMap;
use vstd::prelude::*;

verus! {

/// An intersection and the roads that meet there, to be drawn.
#[derive(Debug)]
pub struct IntersectionPreview {
    pub id: OriginalIntersection,
    pub roads: Vec<OriginalRoad>,
    pub intersection_type: IntersectionType,
}

/// The side to which the center line of a road is shifted to get the middle of its surface.
#[derive(Debug, Clone, Copy, PartialEq, Eq, Structural)]
pub enum Side {
    Right,
    Left,
}

/// The surface of a road around its center line. Lengths are in ten-thousandths of a metre.
#[derive(Debug, Clone, Copy, PartialEq, Eq, Structural)]
pub struct RoadSurface {
    pub side: Side,
    /// Twice the distance by which the center line is shifted.
    pub doubled_shift: i128,
    /// How wide the surface is.
    pub width: i128,
}

impl RoadSurface {
    /// The surface of a road that is `fwd_width` wide to the right of its center line and
    /// `back_width` wide to the left.
    pub fn new(fwd_width: i64, back_width: i64) -> (s: RoadSurface)
        ensures
            s.side == if fwd_width >= back_width {
                Side::Right
            } else {
                Side::Left
            },
            s.doubled_shift == if fwd_width >= back_width {
                fwd_width - back_width
            } else {
                back_width - fwd_width
            },
            s.width == fwd_width + back_width,
    {
        let fwd: i128 = fwd_width as i128;
        let back: i128 = back_width as i128;
        if fwd >= back {
            RoadSurface { side: Side::Right, doubled_shift: fwd - back, width: fwd + back }
        } else {
            RoadSurface { side: Side::Left, doubled_shift: back - fwd, width: fwd + back }
        }
    }
}

impl RawMap {
    /// The intersection `id` and the roads that meet there, to be drawn.
    pub fn preview_intersection(&self, id: OriginalIntersection) -> (p: IntersectionPreview)
        requires
            self@.intersections.contains_key(id),
        ensures
            p.id == id,
            p.roads@ == query::roads_at(self@.roads, id),
            p.intersection_type == self@.intersections[id].intersection_type,
            forall|r: OriginalRoad| #[trigger]
                p.roads@.contains(r) <==> self.roads@.contains_key(r) && (r.i1 == id || r.i2 == id),
            forall|a: int, b: int|
                0 <= a < b < p.roads@.len() ==> order::Key::before(
                    #[trigger] p.roads@[a],
                    #[trigger] p.roads@[b],
                ),
            p.intersection_type == self.intersections@[id].intersection_type,
    {
        IntersectionPreview {
            id,
            roads: self.roads_per_intersection(id),
            intersection_type: self.intersections.get(&id).unwrap().intersection_type,
        }
    }
}

} // verus!
