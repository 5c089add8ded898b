//! Navigation summaries over a code graph.

pub mod health;
pub mod map;
pub mod entries;
pub mod clusters;
pub mod quality;
