//! A tour planner for a mobile robot in a fixed indoor arena.
//!
//! The arena is divided into named zones forming a small graph. The planner
//! finds shortest hop-count routes between zones by breadth-first search,
//! stitches per-leg routes into one mission tour with scan-once semantics,
//! can replan a route back to the start, and hands the resulting waypoints
//! out one at a time through a cursor.

pub mod arena;
pub mod graph;
pub mod pathspec;
pub mod planner;
pub mod queue_ext;
