//! pyscope: a Python code map library.
//!
//! The library holds the code graph model, the graph builder used while
//! indexing, the query layer (lookup, traversal, filters) and the analyses
//! that summarise a graph.

pub mod text;
pub mod model;
pub mod analyzer;
pub mod sorting;
pub mod query;
pub mod nav;
pub mod analyze;
pub mod semantic;
pub mod store;
pub mod cli;
pub mod config;
pub mod ci;
pub mod rag;
pub mod llm;
