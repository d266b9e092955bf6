//! Constraint dynamics: how constraints shape agent behaviour over time.
//!
//! Constraint satisfaction problems over integer domains: propagation and arc
//! consistency, a backtracking solver with forward checking, relaxation of
//! over-constrained systems and an energy landscape over assignments.

pub mod constraint;
pub mod domains;
pub mod dynamics;
pub mod energy;
pub mod relaxation;
pub mod solver;
