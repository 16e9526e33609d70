//! An interpreter for a small language of per-location image rules.
pub mod ast;
pub mod attrs;
pub mod context;
pub mod ctx_ops;
pub mod error;
pub mod eval;
pub mod laws;
pub mod num;
pub mod ops;
pub mod semantics;
