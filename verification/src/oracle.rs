//! The oracle: an outside decision procedure that is asked about single
//! formulae.

use crate::collections::Id;
use crate::formula::FormulaView;
use crate::names::Symbols;
use crate::smtlib2::{is_problem, problem, Names};
use crate::status::Status;
use crate::store::{Store, StoreView};
use crate::text::{decimal_digits, decimal_wide, same_text};
use vstd::prelude::*;
use vstd::string::*;

verus! {

/// Which oracle to consult.
#[derive(Clone, Copy, Debug, PartialEq, Eq, Structural)]
pub enum Oracle {
    Null,
    Z3,
}

impl Oracle {
    /// The oracle named `x`: "null" or "z3".
    pub fn parse(x: &str) -> (oracle: Option<Oracle>)
        ensures
            oracle == if x@ == "null"@ {
                Some(Oracle::Null)
            } else if x@ == "z3"@ {
                Some(Oracle::Z3)
            } else {
                None
            },
    {
        if same_text(x, "null") {
            Some(Oracle::Null)
        } else if same_text(x, "z3") {
            Some(Oracle::Z3)
        } else {
            None
        }
    }
}

impl core::str::FromStr for Oracle {
    type Err = ();

    fn from_str(x: &str) -> (oracle: Result<Self, ()>)
        ensures
            oracle == if x@ == "null"@ {
                Ok::<Oracle, ()>(Oracle::Null)
            } else if x@ == "z3"@ {
                Ok::<Oracle, ()>(Oracle::Z3)
            } else {
                Err::<Oracle, ()>(())
            },
    {
        match Oracle::parse(x) {
            Some(oracle) => Ok(oracle),
            None => Err(()),
        }
    }
}

/// The verdict of the oracle that knows nothing: it only tells the two
/// constants apart.
pub fn run(store: &Store, f: Id) -> (status: Status)
    requires
        f < store@.formulae.len(),
    ensures
        status == match store@.formulae[f as int] {
            FormulaView::T => Status::Sat,
            FormulaView::F => Status::Unsat,
            _ => Status::Unknown,
        },
{
    let formula = store.formula(f);
    if formula.is_true() {
        Status::Sat
    } else if formula.is_false() {
        Status::Unsat
    } else {
        Status::Unknown
    }
}

/// What `which` says of the formula `f` without a question to the solver:
/// the verdict of the oracle that knows nothing, or nothing, where the
/// solver is to be asked.
pub fn consult(which: Oracle, store: &Store, f: Id) -> (status: Option<Status>)
    requires
        f < store@.formulae.len(),
    ensures
        status == match which {
            Oracle::Null => Some(
                match store@.formulae[f as int] {
                    FormulaView::T => Status::Sat,
                    FormulaView::F => Status::Unsat,
                    _ => Status::Unknown,
                },
            ),
            Oracle::Z3 => None,
        },
{
    match which {
        Oracle::Null => Some(run(store, f)),
        Oracle::Z3 => None,
    }
}

/// The verdict that the first line of the solver's answer stands for, if it
/// is one of `sat`, `unsat` and `unknown`.
pub fn parse_answer(line: &str) -> (status: Option<Status>)
    ensures
        status == if line@ == "sat\n"@ {
            Some(Status::Sat)
        } else if line@ == "unsat\n"@ {
            Some(Status::Unsat)
        } else if line@ == "unknown\n"@ {
            Some(Status::Unknown)
        } else {
            None
        },
{
    if same_text(line, "sat\n") {
        Some(Status::Sat)
    } else if same_text(line, "unsat\n") {
        Some(Status::Unsat)
    } else if same_text(line, "unknown\n") {
        Some(Status::Unknown)
    } else {
        None
    }
}

/// The settings that precede a problem: quantifiers are instantiated from
/// models alone, in at most `iterations` rounds. A blank line ends them.
pub open spec fn settings_text(iterations: nat) -> Seq<char> {
    "(set-option :smt.auto-config false)\n"@ + "(set-option :smt.ematching false)\n"@
        + "(set-option :smt.mbqi true)\n"@ + "(set-option :smt.mbqi.max_iterations "@
        + decimal_digits(iterations) + ")\n"@ + "\n"@
}

/// Whether `text` is what the solver is to read about `f`: the settings,
/// then the problem.
pub open spec fn is_question(
    s: StoreView,
    names: Names,
    f: Id,
    iterations: nat,
    text: Seq<char>,
) -> bool {
    exists|asked: Seq<char>| #[trigger]
        is_problem(s, names, f, asked) && text == settings_text(iterations) + asked
}

/// What the solver is to read about `f`, if `f` can be written.
pub fn question(store: &Store, symbols: &Symbols, f: Id, iterations: u64) -> (text: Option<
    String,
>)
    requires
        store.wf(),
        symbols.wf(),
    ensures
        match text {
            Some(text) => is_question(store@, symbols@, f, iterations as nat, text@),
            None => !(f < usize::MAX && crate::smtlib2::writable(store@, symbols@, f, 0)),
        },
{
    match problem(store, symbols, f) {
        Some(asked) => {
            let mut text = String::from_str("(set-option :smt.auto-config false)\n");
            text.append("(set-option :smt.ematching false)\n");
            text.append("(set-option :smt.mbqi true)\n");
            text.append("(set-option :smt.mbqi.max_iterations ");
            let number = decimal_wide(iterations);
            text.append(number.as_str());
            text.append(")\n");
            text.append("\n");
            text.append(asked.as_str());
            proof {
                assert(text@ =~= settings_text(iterations as nat) + asked@);
            }
            Some(text)
        },
        None => None,
    }
}

} // verus!
