//! A raw road network: roads and intersections keyed by their OpenStreetMap ids, the edits that
//! can be made to them, and the fixes that record such edits as a difference between two maps.
pub mod edit;
pub mod fixes;
pub mod fixes_laws;
pub mod geometry;
pub mod ids;
pub mod laws;
pub mod layers;
pub mod merge;
pub mod merge_laws;
pub mod order;
pub mod osm;
pub mod preview;
pub mod query;
pub mod raw;
pub mod restriction;
pub mod seqs;
pub mod sorted_map;
pub mod sorted_set;
pub mod tags;
pub mod text;
pub mod value;
