//! The indexer: syntax tree, source helpers, graph builder and visitors.

pub mod builder;
pub mod helpers;
pub mod index;
pub mod syntax;
pub mod visitors;
pub mod wellformed;
