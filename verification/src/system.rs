//! The time budget, and the lines that report how a run ended.

use crate::collections::Id;
use crate::names::Symbols;
use crate::output::{all_printable, statements, statements_text};
use crate::smtlib2::Names;
use crate::status::Status;
use crate::store::{Store, StoreView};
use vstd::prelude::*;
use vstd::string::*;

verus! {

/// Whether a run that has taken `elapsed` is within its budget of `limit`,
/// both in the same unit of time.
pub fn within_time(elapsed: u64, limit: u64) -> (within: bool)
    ensures
        within == (elapsed < limit),
{
    elapsed < limit
}

/// The report of a time-out for the problem `name`, if a run that has taken
/// `elapsed` is out of its budget of `limit`.
pub fn check_for_timeout(elapsed: u64, limit: u64, name: &str) -> (report: Option<String>)
    ensures
        match report {
            Some(line) => elapsed >= limit && line@ == status_line("TimeOut"@, name@),
            None => elapsed < limit,
        },
{
    if within_time(elapsed, limit) {
        None
    } else {
        Some(time_out(name))
    }
}

/// The line that reports the status `status` of the problem `name`.
pub open spec fn status_line(status: Seq<char>, name: Seq<char>) -> Seq<char> {
    "% SZS status "@ + status + " for "@ + name
}

/// The line that reports `status` for `name`.
fn line_of(word: &str, name: &str) -> (line: String)
    ensures
        line@ == status_line(word@, name@),
{
    let mut line = String::from_str("% SZS status ");
    line.append(word);
    line.append(" for ");
    line.append(name);
    line
}

/// The report that the operating system failed the run.
pub fn os_error(name: &str) -> (line: String)
    ensures
        line@ == status_line("OSError"@, name@),
{
    line_of("OSError", name)
}

/// The report that the input could not be read as a problem.
pub fn input_error(name: &str) -> (line: String)
    ensures
        line@ == status_line("InputError"@, name@),
{
    line_of("InputError", name)
}

/// The report that the input asks for something that is not supported.
pub fn unsupported(name: &str) -> (line: String)
    ensures
        line@ == status_line("Inappropriate"@, name@),
{
    line_of("Inappropriate", name)
}

/// The report that the time budget ran out.
pub fn time_out(name: &str) -> (line: String)
    ensures
        line@ == status_line("TimeOut"@, name@),
{
    line_of("TimeOut", name)
}

/// The line that opens or closes the output of kind `kind` for the problem
/// `name`.
pub open spec fn output_line(edge: Seq<char>, kind: Seq<char>, name: Seq<char>) -> Seq<char> {
    "% SZS output "@ + edge + " "@ + kind + " for "@ + name + "\n"@
}

/// The report that the negated problem `name` can be satisfied, so that its
/// conjecture is no theorem: the status and an empty assurance.
pub open spec fn satisfiable_text(name: Seq<char>) -> Seq<char> {
    status_line("CounterSatisfiable"@, name) + "\n"@ + output_line("start"@, "Assurance"@, name)
        + output_line("end"@, "Assurance"@, name)
}

/// The report that the conjecture of the problem `name` is a theorem: the
/// status, and the statements of the refutation between the lines that open
/// and close it.
pub open spec fn unsatisfiable_text(
    s: StoreView,
    names: Names,
    name: Seq<char>,
    lemmas: Seq<Id>,
) -> Seq<char> {
    status_line("Theorem"@, name) + "\n"@ + output_line("start"@, "Refutation"@, name)
        + statements_text(s, names, lemmas, lemmas.len()) + output_line(
        "end"@,
        "Refutation"@,
        name,
    )
}

/// Appends the line that opens or closes an output.
fn write_output_line(out: &mut String, edge: &str, kind: &str, name: &str)
    ensures
        final(out)@ == old(out)@ + output_line(edge@, kind@, name@),
{
    let ghost start = out@;
    out.append("% SZS output ");
    out.append(edge);
    out.append(" ");
    out.append(kind);
    out.append(" for ");
    out.append(name);
    out.append("\n");
    proof {
        assert(out@ =~= start + output_line(edge@, kind@, name@));
    }
}

/// The report that the negated problem can be satisfied.
pub fn satisfiable(name: &str) -> (text: String)
    ensures
        text@ == satisfiable_text(name@),
{
    let mut text = line_of("CounterSatisfiable", name);
    text.append("\n");
    write_output_line(&mut text, "start", "Assurance", name);
    write_output_line(&mut text, "end", "Assurance", name);
    proof {
        assert(text@ =~= satisfiable_text(name@));
    }
    text
}

/// The report that the conjecture is a theorem, with the refutation
/// `lemmas`, if each of its formulae can be printed.
pub fn unsatisfiable(store: &Store, symbols: &Symbols, name: &str, lemmas: &Vec<Id>) -> (text:
    Option<String>)
    requires
        store.wf(),
        symbols.wf(),
    ensures
        text is Some == all_printable(store@, symbols@, lemmas@),
        text matches Some(text) ==> text@ == unsatisfiable_text(
            store@,
            symbols@,
            name@,
            lemmas@,
        ),
{
    match statements(store, symbols, lemmas) {
        Some(listed) => {
            let mut text = line_of("Theorem", name);
            text.append("\n");
            write_output_line(&mut text, "start", "Refutation", name);
            text.append(listed.as_str());
            write_output_line(&mut text, "end", "Refutation", name);
            proof {
                assert(text@ =~= unsatisfiable_text(store@, symbols@, name@, lemmas@));
            }
            Some(text)
        },
        None => None,
    }
}

/// What is reported of the problem `name` for the verdict `status` on its
/// negated goal, and the exit code that goes with it. An `Unsat` goal is a
/// theorem, reported with the refutation `lemmas`; a `Sat` goal is no
/// theorem; both end the run with the code 0. An `Unknown` goal is a
/// time-out, with the code 1. Nothing is reported for a refutation with a
/// formula that cannot be printed, and the code is 1.
pub fn report(store: &Store, symbols: &Symbols, name: &str, status: Status, lemmas: &Vec<Id>) -> (out:
    (Option<String>, u8))
    requires
        store.wf(),
        symbols.wf(),
    ensures
        match status {
            Status::Sat => out.1 == 0 && out.0 is Some && out.0.unwrap()@ == satisfiable_text(
                name@,
            ),
            Status::Unsat => if all_printable(store@, symbols@, lemmas@) {
                out.1 == 0 && out.0 is Some && out.0.unwrap()@ == unsatisfiable_text(
                    store@,
                    symbols@,
                    name@,
                    lemmas@,
                )
            } else {
                out.1 == 1 && out.0 is None
            },
            Status::Unknown => out.1 == 1 && out.0 is Some && out.0.unwrap()@ == status_line(
                "TimeOut"@,
                name@,
            ),
        },
{
    match status {
        Status::Sat => (Some(satisfiable(name)), 0),
        Status::Unsat => match unsatisfiable(store, symbols, name, lemmas) {
            Some(text) => (Some(text), 0),
            None => (None, 1),
        },
        Status::Unknown => (Some(time_out(name)), 1),
    }
}

} // verus!
