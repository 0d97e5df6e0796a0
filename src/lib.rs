//! A uniform bucket grid over moving 2D points, with verified insertion,
//! resizing, re-bucketing, radius queries and enumeration of close pairs,
//! and the settings of the frames that display the points.
//!
//! - `grid`: the grid, its entity trait, and their contracts.
//! - `model`: nested-sequence model of the buckets and its lemmas.
//! - `laws`: properties that relate the grid's operations to plain scans.
//! - `neonet`: the point type that the application moves around.
//! - `flow`: frame settings and the desktop frame's event decisions.
//! - `util`: integer helpers.
use vstd::prelude::*;

pub mod flow;
pub mod grid;
pub mod laws;
pub mod model;
pub mod neonet;
pub mod util;

verus! {

} // verus!
