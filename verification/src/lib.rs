//! A refutation-based theorem prover core for classical first-order logic
//! with equality.

pub mod collections;
pub mod deduction;
pub mod encoding;
pub mod formula;
pub mod heuristic;
pub mod input;
pub mod loading;
pub mod lowering;
pub mod measure;
pub mod names;
pub mod options;
pub mod oracle;
pub mod output;
pub mod prover;
pub mod replacement;
pub mod score;
pub mod search;
pub mod semantics;
pub mod signature;
pub mod simplification;
pub mod smtlib2;
pub mod status;
pub mod store;
pub mod substitution;
pub mod symbol;
pub mod syntax;
pub mod system;
pub mod term;
pub mod text;
pub mod traversal;
pub mod util;
