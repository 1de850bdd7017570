pub mod bytes;
pub mod primitives;
pub mod relation;
pub mod relation_laws;
pub mod stage;
pub mod rows;
pub mod plan;
pub mod builders;
pub mod materialize;
pub mod laws;
