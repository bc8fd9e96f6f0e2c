//! Multi-objective evolutionary search over binary treatment assignments.
//!
//! Outcome estimates are carried as signed integers (`i64`); utilities are
//! their sums, held in `i128` so that no sum can overflow.

mod random;

pub mod blend;
pub mod counting;
pub mod outcomes;
pub mod policy;
pub mod population;
pub mod ranking;
pub mod sorting;
pub mod tiers;
