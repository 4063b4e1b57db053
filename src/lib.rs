//! An interactive, incrementally maintained relational query engine: the plan
//! algebra, its declarative meaning, the arrangement caches, the renderer that
//! lowers plans into dataflow steps, and the command-driven lifecycle.
pub mod datum;
pub mod plan;
pub mod semantics;
pub mod laws;
pub mod cache;
pub mod manager;
pub mod query;
pub mod render;
pub mod install;
pub mod command;
pub mod meaning;
