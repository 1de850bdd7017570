pub mod backend;
pub mod laws;
pub mod live;
pub mod relations;
pub mod schema;
pub mod tiles;
pub mod topic_edges;
pub mod topic_geometries;
