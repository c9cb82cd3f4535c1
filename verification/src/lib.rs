//! Foot-placement annotation for four-panel dance charts.
//!
//! A chart is a time-ordered sequence of note rows. For each row the library
//! enumerates every legal way to press the required panels with heels and
//! toes, scores each transition with a weighted sum of biomechanical cost
//! terms, and extracts the cheapest overall assignment by a shortest-path
//! search over the resulting state graph.
//!
//! All geometry, time and cost arithmetic is carried out in exact fixed-point
//! integers: stage coordinates and distances in millionths of a panel unit,
//! time in microseconds, and costs in millionths of a cost unit.

pub mod cost;
pub mod extensions;
pub mod feet;
pub mod graph;
pub mod math;
pub mod stage;
pub mod state;

pub use crate::feet::{FootPart, FootPlacement};
pub use crate::graph::StepGraph;
pub use crate::stage::DanceStage;
