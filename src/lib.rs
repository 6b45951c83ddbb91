//! Constraint-based layout for a tree of user-interface elements.
//!
//! Components live in change-tracked tables; each tick, the layout pass
//! turns what changed into linear constraints for an incremental solver,
//! and the solver's resolved values are published back per entity.

pub mod bits;
pub mod class;
pub mod track;
pub mod constraint;
pub mod solver;
pub mod layout;
pub mod systems;
pub mod guarantees;
