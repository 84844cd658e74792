//! The deduction engine: from a goal to the inferences that belong to it.

pub mod complete;
pub mod engine;
pub mod inferences;
pub mod making;
pub mod rules;
pub mod sound;
pub mod weakening;
