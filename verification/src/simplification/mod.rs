//! Rewriting a formula into a simpler one.

pub mod classes;
pub mod equational;
pub mod lighter;
pub mod merging;
pub mod normal;
pub mod propositional;
pub mod rounds;
pub mod simplifier;
pub mod sound;
pub mod tame;
