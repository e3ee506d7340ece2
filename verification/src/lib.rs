//! Symbolic partial derivatives of algebraic expression trees.
//!
//! An expression is stored flat ([`deep::DeepEx`]): a sequence of leaves,
//! a chain of binary operators linking consecutive leaves, and a chain of
//! unary operators applied outermost-first to the fully reduced result.
//! Binary chains are folded in operator-priority order, ties broken left
//! to right ([`prio::prioritized_indices`]); differentiation
//! ([`partial_derivatives::partial_deepex`]) reuses exactly that fold
//! order, applying per-operator derivative rules, and returns a fresh
//! tree. The meaning of every operation is stated against the
//! mathematical term model of [`model`]: a tree denotes a
//! [`model::Term`], and a derivative tree denotes the symbolic
//! derivative [`model::dterm`] of its input's term.
//!
//! Numeric constants are carried as canonical literal text and never
//! interpreted here; evaluation is its callers' concern. [`render`]
//! produces the canonical text of any tree, sufficient to rebuild it by
//! parsing.

pub mod operators;
pub mod model;
pub mod deep;
pub mod prio;
pub mod render;
pub mod partial_derivatives;
