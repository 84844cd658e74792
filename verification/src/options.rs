//! The modes of operation.

use crate::text::same_text;
use vstd::prelude::*;

verus! {

/// What to do with the problem: hand it to the oracle alone, or search for a
/// refutation.
#[derive(Clone, Copy, Debug, PartialEq, Eq, Structural)]
pub enum Mode {
    Baseline,
    Prover,
}

impl Mode {
    /// The mode named `x`: "baseline" or "prover".
    pub fn parse(x: &str) -> (mode: Option<Mode>)
        ensures
            mode == if x@ == "baseline"@ {
                Some(Mode::Baseline)
            } else if x@ == "prover"@ {
                Some(Mode::Prover)
            } else {
                None
            },
    {
        if same_text(x, "baseline") {
            Some(Mode::Baseline)
        } else if same_text(x, "prover") {
            Some(Mode::Prover)
        } else {
            None
        }
    }
}

impl core::str::FromStr for Mode {
    type Err = ();

    fn from_str(x: &str) -> (mode: Result<Self, ()>)
        ensures
            mode == if x@ == "baseline"@ {
                Ok::<Mode, ()>(Mode::Baseline)
            } else if x@ == "prover"@ {
                Ok::<Mode, ()>(Mode::Prover)
            } else {
                Err::<Mode, ()>(())
            },
    {
        match Mode::parse(x) {
            Some(mode) => Ok(mode),
            None => Err(()),
        }
    }
}

} // verus!
