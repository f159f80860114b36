//! Multi-object tracking of axis-aligned boxes across frames.
//!
//! Each frame's detections are matched greedily, by intersection over union,
//! with the live tracks, oldest track first; detections left over start new
//! tracks with fresh identities, and tracks missed on too many frames in a row
//! are removed. Positions and sizes are integers in millionths of the frame
//! side, and intersections over union are integers in millionths.
use vstd::prelude::*;

pub mod detection;
pub mod geometry;
pub mod render;
pub mod track;
pub mod tracker;

verus! {

} // verus!
