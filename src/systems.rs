//! The passes that run around the layout pass each tick.

pub mod children;
pub mod changed;
pub mod position;
