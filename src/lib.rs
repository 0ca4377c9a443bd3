//! A small functional expression language: a name-based surface tree is
//! resolved into a tree of unique scope ids with explicit capture sets, and
//! that tree is evaluated to numbers and closures.
pub mod common;
pub mod keyed_stack;
pub mod level0;
pub mod level1;
pub mod resolve_spec;
pub mod resolver;
pub mod eval;
pub mod pipeline;
pub mod laws;
