pub mod category;
pub mod dot;
pub mod graph;
pub mod laws;
pub mod producer;
pub mod variants;
