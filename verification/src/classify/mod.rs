//! Classification as a configuration spells it: conditions that refer to macros and to sanitizers
//! by name, the categories made of them, and the values derived from several tags.
pub mod categories;
pub mod chain;
pub mod classifier;
pub mod derive;
pub mod filter;
pub mod laws;
pub mod lint;
pub mod sanitize;
