//! Categories: their conditions as expressions over atoms, and the analyses on those.
pub mod categories;
pub mod expr;
pub mod faithful;
pub mod laws;
pub mod lint_laws;
pub mod linter;
pub mod order;
pub mod order_laws;
pub mod pipeline;
pub mod rank;
pub mod transform;
