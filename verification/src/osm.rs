//! Keys of tags.
use vstd::prelude::*;

verus! {

/// Marks what was not in the map data, but was drawn.
pub const SYNTHETIC: &'static str = "abst:synthetic";

} // verus!
