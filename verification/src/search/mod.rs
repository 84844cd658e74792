//! The search for a refutation.

pub mod ancestry;
pub mod expansion;
pub mod graph;
pub mod growth;
pub mod justified;
pub mod refutation;
pub mod scoring;
pub mod selection;
pub mod verdicts;
pub mod view;
