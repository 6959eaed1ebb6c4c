//! A verified evaluator for the untyped lambda calculus extended with
//! top-level named assignments.
//!
//! - [`term`] holds the term tree, its mathematical view, free-variable
//!   analysis, alpha-renaming and fresh-name generation;
//! - [`subst`] holds capture-avoiding substitution;
//! - [`reduce`] holds the leftmost-outermost beta step and the driver that
//!   iterates it to a normal form under an explicit step budget — the
//!   calculus guarantees no termination, so the budget is the cooperative
//!   cancellation point, and it never changes a result, only whether one
//!   is reached;
//! - [`eval`] holds the persistent name environment, name resolution, and
//!   the evaluation of single terms and of term batches;
//! - [`printer`] holds the canonical rendering back to concrete syntax.

pub mod eval;
pub mod printer;
pub mod reduce;
pub mod subst;
pub mod term;
