//! A deterministic, cost-metered evaluator for programs written as trees of
//! byte strings and pairs, with the canonical byte encoding of such trees.

pub mod api;
pub mod core_ops;
pub mod eval;
pub mod f_table;
pub mod more_ops;
pub mod number;
pub mod serialize;
pub mod sexp;
