//! Analyses that summarise a code graph.

pub mod refactor_order;
pub mod deps;
pub mod hotspots;
pub mod test_impact;
pub mod type_coverage;
pub mod async_map;
pub mod fanout;
pub mod decorator_usage;
pub mod diff;
