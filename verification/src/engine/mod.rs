//! The engine that runs a topic over an element: field producers, the topic as it is loaded, and
//! the rows that come out.
pub mod check;
pub mod csv_source;
pub mod discover;
pub mod extract;
pub mod geometry;
pub mod geometry_laws;
pub mod ids;
pub mod laws;
pub mod load_laws;
pub mod producer_laws;
pub mod runner;
pub mod selection;
pub mod topic;
pub mod topic_runner;
