//! Places as plain integers.
use crate::value::Value;
use vstd::prelude::*;

verus! {

/// A point of the map's plane, in ten-thousandths of a metre.
#[derive(Debug, Clone, Copy, PartialEq, Eq, Hash, Structural)]
pub struct Pt2D {
    pub x: i64,
    pub y: i64,
}

impl View for Pt2D {
    type V = Pt2D;

    open spec fn view(&self) -> Pt2D {
        *self
    }
}

impl Value for Pt2D {
    fn same(&self, other: &Self) -> (r: bool) {
        *self == *other
    }

    fn copied(&self) -> (r: Self) {
        *self
    }
}

impl Value for Vec<Pt2D> {
    fn same(&self, other: &Self) -> (r: bool) {
        if self.len() != other.len() {
            return false;
        }
        let mut i: usize = 0;
        while i < self.len()
            invariant
                i <= self@.len() == other@.len(),
                forall|j: int| 0 <= j < i ==> self@[j] == other@[j],
            decreases self@.len() - i,
        {
            if self[i] != other[i] {
                return false;
            }
            i += 1;
        }
        assert(self@ =~= other@);
        true
    }

    fn copied(&self) -> (r: Self) {
        let mut r: Vec<Pt2D> = Vec::new();
        let mut i: usize = 0;
        while i < self.len()
            invariant
                i <= self@.len(),
                r@ =~= self@.take(i as int),
            decreases self@.len() - i,
        {
            r.push(self[i]);
            i += 1;
        }
        assert(r@ =~= self@);
        r
    }
}

/// The longitudes and latitudes between which a map lies. Each is the bit pattern of an IEEE 754
/// double, so that no digit is lost on the way through.
#[derive(Debug, Clone, Copy, PartialEq, Eq, Hash, Structural)]
pub struct GPSBounds {
    pub min_lon: u64,
    pub min_lat: u64,
    pub max_lon: u64,
    pub max_lat: u64,
}

} // verus!
