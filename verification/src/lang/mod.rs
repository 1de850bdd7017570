//! The configuration language: tag reads with their sanitize chains, and boolean filters.
pub mod context;
pub mod extract;
pub mod filter;
pub mod laws;
pub mod producer;
pub mod sanitize;
pub mod table;
