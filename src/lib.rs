//! A small reverse-mode automatic differentiation engine over integer
//! scalars, with every node kept in a per-session append-only arena.

pub mod arena;
pub mod chain;
pub mod graph;
pub mod matrix;
