use refute::names::{symbol_arity, symbol_for, symbol_name, Symbols};
use refute::options::Mode;
use refute::oracle::{parse_answer, Oracle};
use refute::heuristic::Heuristic;
use refute::status::Status;
use refute::symbol::Symbol;
use refute::system::{
    check_for_timeout, input_error, os_error, satisfiable, time_out, unsupported, within_time,
};
use refute::text::{decimal, decimal_wide, hexadecimal, same_text};

#[test]
fn numbers_in_decimal() {
    assert_eq!(decimal(0), "0");
    assert_eq!(decimal(7), "7");
    assert_eq!(decimal(10), "10");
    assert_eq!(decimal(12345), "12345");
    assert_eq!(decimal_wide(100), "100");
    assert_eq!(decimal_wide(u64::MAX), "18446744073709551615");
}

#[test]
fn numbers_in_hexadecimal() {
    assert_eq!(hexadecimal(0), "0");
    assert_eq!(hexadecimal(15), "f");
    assert_eq!(hexadecimal(16), "10");
    assert_eq!(hexadecimal(255), "ff");
    assert_eq!(hexadecimal(4096), "1000");
    assert_eq!(hexadecimal(0xdead_beef), "deadbeef");
}

#[test]
fn texts_are_compared_letter_by_letter() {
    assert!(same_text("sat", "sat"));
    assert!(!same_text("sat", "sat\n"));
    assert!(!same_text("sat", "sad"));
    assert!(same_text("", ""));
}

#[test]
fn a_name_with_an_arity_has_one_symbol() {
    let mut symbols = Symbols::new();
    let p = symbol_for(&mut symbols, "p", 1);
    let q = symbol_for(&mut symbols, "q", 0);
    let again = symbol_for(&mut symbols, "p", 1);
    let other = symbol_for(&mut symbols, "p", 2);
    assert_eq!(p, Symbol::Original(0));
    assert_eq!(q, Symbol::Original(1));
    assert_eq!(again, p);
    assert_eq!(other, Symbol::Original(2));
    assert_eq!(symbols.len(), 3);
    assert_eq!(symbol_name(&symbols, p), "p");
    assert_eq!(symbol_name(&symbols, other), "p");
    assert_eq!(symbol_arity(&symbols, p), 1);
    assert_eq!(symbol_arity(&symbols, other), 2);
    assert_eq!(symbol_arity(&symbols, q), 0);
}

#[test]
fn an_introduced_symbol_is_named_after_its_number() {
    let symbols = Symbols::new();
    assert_eq!(symbol_name(&symbols, Symbol::Introduced(31)), "k_1f");
    assert_eq!(symbol_name(&symbols, Symbol::Introduced(0)), "k_0");
    assert_eq!(symbol_arity(&symbols, Symbol::Introduced(31)), 0);
    assert!(Symbol::Introduced(3).is_introduced());
    assert!(!Symbol::Original(3).is_introduced());
}

#[test]
fn modes_oracles_and_heuristics_are_named() {
    assert_eq!(Mode::parse("baseline"), Some(Mode::Baseline));
    assert_eq!(Mode::parse("prover"), Some(Mode::Prover));
    assert_eq!(Mode::parse("Prover"), None);
    assert_eq!("prover".parse::<Mode>(), Ok(Mode::Prover));
    assert_eq!("other".parse::<Mode>(), Err(()));
    assert_eq!(Oracle::parse("null"), Some(Oracle::Null));
    assert_eq!(Oracle::parse("z3"), Some(Oracle::Z3));
    assert_eq!(Oracle::parse("z4"), None);
    assert_eq!("z3".parse::<Oracle>(), Ok(Oracle::Z3));
    assert_eq!(Heuristic::parse("null"), Some(Heuristic::Null));
    assert_eq!(Heuristic::parse(""), None);
    assert_eq!("null".parse::<Heuristic>(), Ok(Heuristic::Null));
}

#[test]
fn the_answer_of_the_solver_is_read_from_its_first_line() {
    assert_eq!(parse_answer("sat\n"), Some(Status::Sat));
    assert_eq!(parse_answer("unsat\n"), Some(Status::Unsat));
    assert_eq!(parse_answer("unknown\n"), Some(Status::Unknown));
    assert_eq!(parse_answer("sat"), None);
    assert_eq!(parse_answer("timeout\n"), None);
    assert_eq!(parse_answer(""), None);
}

#[test]
fn the_budget_is_over_when_the_limit_is_reached() {
    assert!(within_time(0, 30));
    assert!(within_time(29, 30));
    assert!(!within_time(30, 30));
    assert!(!within_time(31, 30));
    assert_eq!(check_for_timeout(29, 30, "puz"), None);
    assert_eq!(
        check_for_timeout(30, 30, "puz"),
        Some("% SZS status TimeOut for puz".to_string())
    );
}

#[test]
fn reports_name_the_status_and_the_problem() {
    assert_eq!(os_error("puz"), "% SZS status OSError for puz");
    assert_eq!(input_error("puz"), "% SZS status InputError for puz");
    assert_eq!(unsupported("puz"), "% SZS status Inappropriate for puz");
    assert_eq!(time_out("unknown"), "% SZS status TimeOut for unknown");
    assert_eq!(
        satisfiable("puz"),
        "% SZS status CounterSatisfiable for puz\n\
         % SZS output start Assurance for puz\n\
         % SZS output end Assurance for puz\n"
    );
}
