//! Values that can be compared and copied by what they stand for.
use vstd::prelude::*;

verus! {

/// A value that is determined by its view.
pub trait Value: View + Sized {
    /// The two values stand for the same thing.
    fn same(&self, other: &Self) -> (r: bool)
        ensures
            r == (self@ == other@),
    ;

    /// A second value that stands for the same thing.
    fn copied(&self) -> (r: Self)
        ensures
            r@ == self@,
    ;
}

impl Value for () {
    fn same(&self, other: &Self) -> (r: bool) {
        true
    }

    fn copied(&self) -> (r: Self) {
    }
}

} // verus!
