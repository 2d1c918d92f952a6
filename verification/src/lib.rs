//! Builds a directory tree from an unordered stream of filesystem entries,
//! aggregates disk usage bottom-up, prunes empty directories and renders the
//! result as a box-drawn text diagram.

pub mod arena;
pub mod assemble;
pub mod collect;
pub mod context;
pub mod error;
pub mod laws;
pub mod node;
pub mod order;
pub mod pending;
pub mod prune;
pub mod render;
pub mod shape;
pub mod text;
pub mod tree;
pub mod ui;
pub mod utils;
