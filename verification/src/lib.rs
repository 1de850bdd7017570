//! Configurable classification of tagged map objects: filters, tag reads, value producers, the
//! category compiler, the discrimination net that prunes a first-match walk, the input pipeline,
//! and the binary and SQL shapes the results are written in.
pub mod assoc;
pub mod categorize;
pub mod classify;
pub mod config;
pub mod dag;
pub mod db;
pub mod decision_tree;
pub mod engine;
pub mod geom;
pub mod json;
pub mod lang;
pub mod model;
pub mod number;
pub mod tags;
pub mod text;
pub mod value;
