//! Integer core of a text-first 3D shape authoring tool: signed axis
//! placements, integer bounds, symmetry expansion, cell occupancy and the
//! integer parts of mesh fusion.

pub mod placement;
pub mod bounds;
pub mod csg;
pub mod text;
pub mod spec;
pub mod registry;
pub mod occupancy;
pub mod collect;
pub mod extent;
pub mod edits;
pub mod merge;
pub mod cover;
pub mod tables;
pub mod table_laws;
pub mod color;
pub mod surface;
pub mod orient;
pub mod palette;
pub mod fusion;
pub mod resolve;
pub mod faces;
pub mod fuse;
pub mod production;
pub mod validate;
pub mod checks;
pub mod watch;
pub mod animator;
pub mod compile;
pub mod cli;
