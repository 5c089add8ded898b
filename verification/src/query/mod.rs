//! Queries over a code graph.

pub mod index;
pub mod lookup;
pub mod similar;
pub mod export;
pub mod filter;
pub mod find;
pub mod traversal;
pub mod commands;
