use refute::collections::{IdList, IdSet};
use refute::encoding::flatten;
use refute::formula::Formula;
use refute::heuristic::{heuristic, score, Heuristic, InFlight};
use refute::names::{symbol_for, Symbols};
use refute::oracle::{consult, question, run, Oracle};
use refute::output::{is_printable, statement_name, statements, write_statement};
use refute::score::Score;
use refute::smtlib2::{is_writable, problem, write_formula, write_problem};
use refute::status::Status;
use refute::store::Store;
use refute::symbol::Symbol;
use refute::system::unsatisfiable;
use refute::term::Term;

fn set(ids: &[usize]) -> IdSet {
    IdSet::from_vec(&ids.to_vec())
}

fn list(ids: &[usize]) -> IdList {
    IdList::from_vec(&ids.to_vec())
}

struct World {
    store: Store,
    symbols: Symbols,
    p: Symbol,
    q: Symbol,
    r: Symbol,
    a: Symbol,
    f: Symbol,
}

fn world() -> World {
    let mut symbols = Symbols::new();
    let p = symbol_for(&mut symbols, "p", 1);
    let q = symbol_for(&mut symbols, "q", 0);
    let r = symbol_for(&mut symbols, "r", 0);
    let a = symbol_for(&mut symbols, "a", 0);
    let f = symbol_for(&mut symbols, "f", 2);
    World { store: Store::new(), symbols, p, q, r, a, f }
}

#[test]
fn a_problem_declares_its_symbols_and_asserts_its_formula() {
    let mut w = world();
    let a = w.store.intern_term(Term::Fn(w.a, IdList::new()));
    let pa = w.store.intern(Formula::Prd(w.p, list(&[a])));
    assert_eq!(
        write_problem(&w.store, &w.symbols, pa),
        "(declare-sort object)\n\
         (declare-fun p_1 (object) Bool)\n\
         (declare-fun a_0 () object)\n\
         (assert (p_1 a_0))\n\
         (check-sat)\n"
    );
    assert_eq!(
        problem(&w.store, &w.symbols, pa),
        Some(write_problem(&w.store, &w.symbols, pa))
    );
}

#[test]
fn a_function_of_two_arguments_is_declared_with_two_sorts() {
    let mut w = world();
    let a = w.store.intern_term(Term::Fn(w.a, IdList::new()));
    let faa = w.store.intern_term(Term::Fn(w.f, list(&[a, a])));
    let eq = w.store.intern(Formula::Eq(set(&[a, faa])));
    let text = write_problem(&w.store, &w.symbols, eq);
    assert!(text.starts_with("(declare-sort object)\n"));
    assert!(text.contains("(declare-fun f_2 (object object) object)\n"));
    assert!(text.contains("(declare-fun a_0 () object)\n"));
    assert!(text.ends_with("(assert (= a_0 (f_2 a_0 a_0)))\n(check-sat)\n"));
    assert_eq!(text.matches("declare-fun").count(), 2);
}

#[test]
fn connectives_and_quantifiers_are_written_for_the_solver() {
    let mut w = world();
    let x = w.store.intern_term(Term::Var(0));
    let px = w.store.intern(Formula::Prd(w.p, list(&[x])));
    let q = w.store.intern(Formula::Prd(w.q, IdList::new()));
    let r = w.store.intern(Formula::Prd(w.r, IdList::new()));
    let not_q = Formula::negate(&mut w.store, q);
    let imp = w.store.intern(Formula::Imp(px, q));
    let all = w.store.intern(Formula::All(imp));
    let ex = w.store.intern(Formula::Ex(px));
    let and = w.store.intern(Formula::And(set(&[q, r])));
    let or = w.store.intern(Formula::Or(set(&[q, not_q])));
    let eqv = w.store.intern(Formula::Eqv(set(&[q, r])));
    let t = Formula::truth(&mut w.store);
    let f = Formula::falsity(&mut w.store);
    let cases = [
        (all, "(forall ((X0 object)) (=> (p_1 X0) q_0))"),
        (ex, "(exists ((X0 object)) (p_1 X0))"),
        (and, "(and q_0 r_0)"),
        (or, "(or q_0 (not q_0))"),
        (eqv, "(= q_0 r_0)"),
        (t, "true"),
        (f, "false"),
    ];
    for (formula, expected) in cases {
        assert!(is_writable(&w.store, &w.symbols, formula, 0));
        let mut out = String::from("> ");
        write_formula(&mut out, &w.store, &w.symbols, formula, 0);
        assert_eq!(out, format!("> {}", expected));
    }
}

#[test]
fn variables_are_named_by_the_depth_of_their_quantifier() {
    let mut w = world();
    let inner = w.store.intern_term(Term::Var(0));
    let outer = w.store.intern_term(Term::Var(1));
    let fxy = w.store.intern_term(Term::Fn(w.f, list(&[outer, inner])));
    let atom = w.store.intern(Formula::Prd(w.p, list(&[fxy])));
    let ex = w.store.intern(Formula::Ex(atom));
    let all = w.store.intern(Formula::All(ex));
    let mut out = String::new();
    write_formula(&mut out, &w.store, &w.symbols, all, 0);
    assert_eq!(out, "(forall ((X0 object)) (exists ((X1 object)) (p_1 (f_2 X0 X1))))");
}

#[test]
fn a_formula_with_a_free_variable_or_an_unnamed_symbol_is_not_written() {
    let mut w = world();
    let x = w.store.intern_term(Term::Var(0));
    let px = w.store.intern(Formula::Prd(w.p, list(&[x])));
    let unnamed = w.store.intern(Formula::Prd(Symbol::Original(99), IdList::new()));
    assert!(!is_writable(&w.store, &w.symbols, px, 0));
    assert!(is_writable(&w.store, &w.symbols, px, 1));
    assert!(!is_writable(&w.store, &w.symbols, unnamed, 0));
    assert_eq!(problem(&w.store, &w.symbols, px), None);
    assert_eq!(problem(&w.store, &w.symbols, unnamed), None);
    assert_eq!(problem(&w.store, &w.symbols, 12345), None);
    assert!(!is_printable(&w.store, &w.symbols, px, 0));
    assert!(!is_printable(&w.store, &w.symbols, unnamed, 0));
    assert_eq!(statements(&w.store, &w.symbols, &vec![px]), None);
    assert_eq!(statements(&w.store, &w.symbols, &vec![12345]), None);
}

#[test]
fn the_solver_is_told_its_settings_before_the_problem() {
    let mut w = world();
    let q = w.store.intern(Formula::Prd(w.q, IdList::new()));
    assert_eq!(
        question(&w.store, &w.symbols, q, 100),
        Some(
            "(set-option :smt.auto-config false)\n\
             (set-option :smt.ematching false)\n\
             (set-option :smt.mbqi true)\n\
             (set-option :smt.mbqi.max_iterations 100)\n\
             \n\
             (declare-sort object)\n\
             (declare-fun q_0 () Bool)\n\
             (assert q_0)\n\
             (check-sat)\n"
                .to_string()
        )
    );
    let x = w.store.intern_term(Term::Var(0));
    let px = w.store.intern(Formula::Prd(w.p, list(&[x])));
    assert_eq!(question(&w.store, &w.symbols, px, 100), None);
}

#[test]
fn the_oracle_that_knows_nothing_tells_the_constants_apart() {
    let mut w = world();
    let q = w.store.intern(Formula::Prd(w.q, IdList::new()));
    let t = Formula::truth(&mut w.store);
    let f = Formula::falsity(&mut w.store);
    assert_eq!(run(&w.store, t), Status::Sat);
    assert_eq!(run(&w.store, f), Status::Unsat);
    assert_eq!(run(&w.store, q), Status::Unknown);
    assert_eq!(consult(Oracle::Null, &w.store, f), Some(Status::Unsat));
    assert_eq!(consult(Oracle::Null, &w.store, q), Some(Status::Unknown));
    assert_eq!(consult(Oracle::Z3, &w.store, f), None);
}

#[test]
fn a_statement_holds_a_formula_under_the_name_of_its_number() {
    let mut w = world();
    let a = w.store.intern_term(Term::Fn(w.a, IdList::new()));
    let x = w.store.intern_term(Term::Var(0));
    let fax = w.store.intern_term(Term::Fn(w.f, list(&[a, x])));
    let px = w.store.intern(Formula::Prd(w.p, list(&[x])));
    let pf = w.store.intern(Formula::Prd(w.p, list(&[fax])));
    let q = w.store.intern(Formula::Prd(w.q, IdList::new()));
    let r = w.store.intern(Formula::Prd(w.r, IdList::new()));
    let not_q = Formula::negate(&mut w.store, q);
    let imp = w.store.intern(Formula::Imp(px, pf));
    let all = w.store.intern(Formula::All(imp));
    let ex = w.store.intern(Formula::Ex(px));
    let and = w.store.intern(Formula::And(set(&[q, r, not_q])));
    let or = w.store.intern(Formula::Or(set(&[q, r])));
    let eqv = w.store.intern(Formula::Eqv(set(&[q, r, not_q])));
    let eq = w.store.intern(Formula::Eq(set(&[a, x])));
    let all_eq = w.store.intern(Formula::All(eq));
    let none = w.store.intern(Formula::Or(IdSet::empty()));
    let all_of_none = w.store.intern(Formula::And(IdSet::empty()));
    let t = Formula::truth(&mut w.store);
    let f = Formula::falsity(&mut w.store);
    let cases = [
        (all, "(! [X0] : (p(X0) => p(f(a,X0))))"),
        (ex, "(? [X0] : p(X0))"),
        (and, "(q & r & ~q)"),
        (or, "(q | r)"),
        (eqv, "((q <=> r) & (r <=> ~q))"),
        (all_eq, "(! [X0] : (a = X0))"),
        (not_q, "~q"),
        (none, "$false"),
        (all_of_none, "$true"),
        (t, "$true"),
        (f, "$false"),
    ];
    for (formula, expected) in cases {
        assert!(is_printable(&w.store, &w.symbols, formula, 0));
        let mut out = String::new();
        write_statement(&mut out, &w.store, &w.symbols, formula);
        assert_eq!(out, format!("fof(f{:x}, plain, {}).\n", formula, expected));
    }
    assert_eq!(statement_name(26), "f1a");
    assert_eq!(
        statements(&w.store, &w.symbols, &vec![q, f]),
        Some(format!("fof(f{:x}, plain, q).\nfof(f{:x}, plain, $false).\n", q, f))
    );
    assert_eq!(statements(&w.store, &w.symbols, &vec![]), Some(String::new()));
}

#[test]
fn a_theorem_is_reported_with_its_refutation() {
    let mut w = world();
    let q = w.store.intern(Formula::Prd(w.q, IdList::new()));
    let f = Formula::falsity(&mut w.store);
    assert_eq!(
        unsatisfiable(&w.store, &w.symbols, "puz", &vec![q, f]),
        Some(format!(
            "% SZS status Theorem for puz\n\
             % SZS output start Refutation for puz\n\
             fof(f{:x}, plain, q).\n\
             fof(f{:x}, plain, $false).\n\
             % SZS output end Refutation for puz\n",
            q, f
        ))
    );
    assert_eq!(unsatisfiable(&w.store, &w.symbols, "puz", &vec![999]), None);
}

#[test]
fn a_formula_is_flattened_into_tags_and_edges() {
    let mut w = world();
    let q = w.store.intern(Formula::Prd(w.q, IdList::new()));
    let r = w.store.intern(Formula::Prd(w.r, IdList::new()));
    let not_q = Formula::negate(&mut w.store, q);
    let and = w.store.intern(Formula::And(set(&[q, r])));
    let or = w.store.intern(Formula::Or(set(&[q, not_q])));
    let imp = w.store.intern(Formula::Imp(q, r));
    let t = Formula::truth(&mut w.store);
    assert_eq!(flatten(&w.store, q), Some((vec![4, 16], vec![(1, 0)])));
    assert_eq!(flatten(&w.store, t), Some((vec![0, 16], vec![(1, 0)])));
    assert_eq!(
        flatten(&w.store, and),
        Some((vec![4, 4, 12, 16], vec![(2, 0), (2, 1), (3, 2)]))
    );
    assert_eq!(
        flatten(&w.store, or),
        Some((vec![4, 10, 11, 16], vec![(1, 0), (2, 0), (2, 1), (3, 2)]))
    );
    assert_eq!(
        flatten(&w.store, imp),
        Some((vec![4, 10, 4, 11, 16], vec![(1, 0), (3, 1), (3, 2), (4, 3)]))
    );
}

#[test]
fn a_bound_variable_has_one_node_for_all_its_places() {
    let mut w = world();
    let x = w.store.intern_term(Term::Var(0));
    let px = w.store.intern(Formula::Prd(w.p, list(&[x])));
    let all = w.store.intern(Formula::All(px));
    assert_eq!(
        flatten(&w.store, all),
        Some((
            vec![2, 6, 8, 7, 14, 16],
            vec![(2, 0), (3, 1), (3, 2), (4, 0), (4, 3), (5, 4)]
        ))
    );
    assert_eq!(flatten(&w.store, px), None);
    let a = w.store.intern_term(Term::Fn(w.a, IdList::new()));
    let faa = w.store.intern_term(Term::Fn(w.f, list(&[a, a])));
    let eq = w.store.intern(Formula::Eq(set(&[a, faa])));
    assert_eq!(
        flatten(&w.store, eq),
        Some((
            vec![3, 5, 8, 7, 9, 16],
            vec![(2, 0), (2, 0), (3, 1), (3, 2), (4, 0), (4, 3), (5, 4)]
        ))
    );
}

#[test]
fn the_heuristic_that_knows_nothing_scores_one_half() {
    assert_eq!(score(&vec![3, 1, 4]), vec![Score::half(); 3]);
    assert_eq!(score(&vec![]), vec![]);
    assert_eq!(heuristic(Heuristic::Null, &vec![7]), vec![Score(0.5_f32.to_bits())]);
}

#[test]
fn an_answer_about_a_goal_that_was_not_asked_about_is_dropped() {
    let mut asked = InFlight::new();
    asked.sent(4);
    asked.sent(9);
    assert!(asked.awaits(4));
    assert!(!asked.awaits(5));
    assert_eq!(asked.received(5, 0.5_f32.to_bits()), None);
    assert_eq!(asked.received(4, f32::NAN.to_bits()), None);
    assert!(asked.awaits(4));
    assert_eq!(asked.received(4, 0.25_f32.to_bits()), Some((4, Score(0.25_f32.to_bits()))));
    assert!(!asked.awaits(4));
    assert_eq!(asked.received(4, 0.25_f32.to_bits()), None);
    assert!(asked.awaits(9));
}

#[test]
fn the_report_and_the_exit_code_follow_the_status() {
    let mut w = world();
    let q = w.store.intern(Formula::Prd(w.q, IdList::new()));
    let f = Formula::falsity(&mut w.store);
    let (text, code) = refute::system::report(&w.store, &w.symbols, "puz", Status::Unsat, &vec![q, f]);
    assert_eq!(code, 0);
    assert_eq!(text, unsatisfiable(&w.store, &w.symbols, "puz", &vec![q, f]));
    assert!(text.unwrap().starts_with("% SZS status Theorem for puz\n"));
    let (text, code) = refute::system::report(&w.store, &w.symbols, "puz", Status::Sat, &vec![]);
    assert_eq!(code, 0);
    assert_eq!(text, Some(refute::system::satisfiable("puz")));
    let (text, code) = refute::system::report(&w.store, &w.symbols, "puz", Status::Unknown, &vec![]);
    assert_eq!(code, 1);
    assert_eq!(text, Some("% SZS status TimeOut for puz".to_string()));
    let (text, code) = refute::system::report(&w.store, &w.symbols, "puz", Status::Unsat, &vec![999]);
    assert_eq!(code, 1);
    assert_eq!(text, None);
}
