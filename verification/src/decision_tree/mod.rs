//! A discrimination net over an ordered list of conditions, to prune a first-match walk.
//!
//! The net branches on what an object's tags read as and on what the engine has noted of it, down
//! to a leaf with a few conditions in their order, each simplified by what the branches above it
//! have settled. A condition is dropped only where it cannot hold.
pub mod candidates;
pub mod choice;
pub mod compile;
pub mod kleene;
pub mod laws;
pub mod optimal;
pub mod places;
pub mod runtime;
pub mod tree;
pub mod walkers;
