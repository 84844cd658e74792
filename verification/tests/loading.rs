use refute::collections::{IdList, IdSet};
use refute::formula::Formula;
use refute::input::{load_fof_formula, load_term, LoadError};
use refute::loading::{
    atom_to_fof, cnf_literal_to_fof, convert_error, load_cnf, load_fof, load_fof_name,
    load_statement, should_negate, Loading, Step,
};
use refute::names::{symbol_for, Symbols};
use refute::prover::{Event, Prover};
use refute::score::Score;
use refute::simplification::simplifier::simplify;
use refute::status::Status;
use refute::store::Store;
use refute::symbol::Symbol;
use refute::syntax::{
    AssocConnective, Atom, CnfLiteral, FofFormula, FofQuantifier, FofTerm, FormulaRole,
    InfixEquality, Name, NonAssocConnective, ReadError, Statement,
};
use refute::system::{input_error, satisfiable, unsatisfiable};
use refute::term::Term;

fn set(ids: &[usize]) -> IdSet {
    IdSet::from_vec(&ids.to_vec())
}

fn list(ids: &[usize]) -> IdList {
    IdList::from_vec(&ids.to_vec())
}

fn var(name: &str) -> FofTerm {
    FofTerm::Variable(name.to_string())
}

fn constant(name: &str) -> FofTerm {
    FofTerm::Functor(name.to_string(), vec![])
}

fn pred(name: &str, arguments: Vec<FofTerm>) -> FofFormula {
    FofFormula::Predicate(name.to_string(), arguments)
}

fn prop(name: &str) -> FofFormula {
    pred(name, vec![])
}

fn every(names: &[&str], body: FofFormula) -> FofFormula {
    FofFormula::Quantified(
        FofQuantifier::Forall,
        names.iter().map(|name| name.to_string()).collect(),
        Box::new(body),
    )
}

fn uct(parent: usize, child: usize, score: Score) -> Score {
    let visits = parent.max(1) as f32;
    let value = f32::from_bits(score.0) + (1.4142 * visits.ln() / (child as f32 + 1.0)).sqrt();
    Score(value.to_bits())
}

fn mean(scores: &Vec<Score>) -> Score {
    let total: f32 = scores.iter().map(|score| f32::from_bits(score.0)).sum();
    Score((total / scores.len() as f32).to_bits())
}

/// Loads the statements, simplifies the goal and searches for at most
/// `limit` steps. Gives what is reported for the problem `puz`.
fn prove(statements: Vec<Statement>, limit: usize) -> String {
    let mut store = Store::new();
    let mut symbols = Symbols::new();
    let mut loading = Loading::new();
    for statement in &statements {
        if load_statement(&mut store, &mut symbols, &mut loading, statement).is_err() {
            return input_error("puz");
        }
    }
    let loaded = match loading.finish(&mut store) {
        Ok(loaded) => loaded,
        Err(_) => return input_error("puz"),
    };
    let goal = simplify(&mut store, loaded.goal);
    let mut prover = Prover::new(&store, goal);
    let verdict = refute::oracle::run(&store, goal);
    prover.search_task(&mut store, Event::Verdict(goal, verdict), &uct, &mean);
    let mut steps = 0;
    while !prover.status().is_known() && steps < limit {
        let fresh = prover.search_task(&mut store, Event::Idle, &uct, &mean);
        for f in fresh {
            let verdict = refute::oracle::run(&store, f);
            prover.search_task(&mut store, Event::Verdict(f, verdict), &uct, &mean);
        }
        steps += 1;
    }
    match prover.status() {
        Status::Unsat => {
            unsatisfiable(&store, &symbols, "puz", &prover.search.refutation()).unwrap()
        }
        Status::Sat => satisfiable("puz"),
        Status::Unknown => refute::system::time_out("puz"),
    }
}

#[test]
fn terms_are_loaded_with_their_symbols() {
    let mut store = Store::new();
    let mut symbols = Symbols::new();
    let term = FofTerm::Functor("f".to_string(), vec![constant("a"), var("X")]);
    let bound = vec!["X".to_string()];
    let loaded = load_term(&mut store, &mut symbols, &term, &bound).unwrap();
    let a = symbol_for(&mut symbols, "a", 0);
    let f = symbol_for(&mut symbols, "f", 2);
    assert_eq!(symbols.len(), 2);
    let ta = store.intern_term(Term::Fn(a, IdList::new()));
    let tx = store.intern_term(Term::Var(0));
    assert_eq!(store.intern_term(Term::Fn(f, list(&[ta, tx]))), loaded);
}

#[test]
fn a_variable_is_numbered_from_the_innermost_quantifier() {
    let mut store = Store::new();
    let mut symbols = Symbols::new();
    let formula = every(&["X", "Y"], pred("r", vec![var("X"), var("Y")]));
    let loaded = load_fof_formula(&mut store, &mut symbols, &formula, &vec![]).unwrap();
    let r = symbol_for(&mut symbols, "r", 2);
    let x = store.intern_term(Term::Var(1));
    let y = store.intern_term(Term::Var(0));
    let atom = store.intern(Formula::Prd(r, list(&[x, y])));
    let inner = store.intern(Formula::All(atom));
    assert_eq!(store.intern(Formula::All(inner)), loaded);
}

#[test]
fn the_innermost_quantifier_binds_a_name_that_is_bound_twice() {
    let mut store = Store::new();
    let mut symbols = Symbols::new();
    let formula = every(
        &["X"],
        FofFormula::Quantified(
            FofQuantifier::Exists,
            vec!["X".to_string()],
            Box::new(pred("p", vec![var("X")])),
        ),
    );
    let loaded = load_fof_formula(&mut store, &mut symbols, &formula, &vec![]).unwrap();
    let p = symbol_for(&mut symbols, "p", 1);
    let x = store.intern_term(Term::Var(0));
    let atom = store.intern(Formula::Prd(p, list(&[x])));
    let ex = store.intern(Formula::Ex(atom));
    assert_eq!(store.intern(Formula::All(ex)), loaded);
}

#[test]
fn an_unbound_variable_is_an_input_error() {
    let mut store = Store::new();
    let mut symbols = Symbols::new();
    let open = pred("p", vec![var("X")]);
    assert_eq!(
        load_fof_formula(&mut store, &mut symbols, &open, &vec![]),
        Err(LoadError::InputError)
    );
    assert_eq!(
        load_term(&mut store, &mut symbols, &var("X"), &vec!["Y".to_string()]),
        Err(LoadError::InputError)
    );
    let hidden = FofFormula::Assoc(
        AssocConnective::And,
        vec![prop("q"), every(&["X"], pred("p", vec![var("Y")]))],
    );
    assert_eq!(
        load_fof(&mut store, &mut symbols, FormulaRole::Axiom, &hidden),
        Err(LoadError::InputError)
    );
}

#[test]
fn connectives_are_loaded() {
    let mut store = Store::new();
    let mut symbols = Symbols::new();
    let both = |op: NonAssocConnective| {
        FofFormula::NonAssoc(op, Box::new(prop("p")), Box::new(prop("q")))
    };
    let lr = load_fof_formula(&mut store, &mut symbols, &both(NonAssocConnective::LRImplies), &vec![]).unwrap();
    let rl = load_fof_formula(&mut store, &mut symbols, &both(NonAssocConnective::RLImplies), &vec![]).unwrap();
    let eqv = load_fof_formula(&mut store, &mut symbols, &both(NonAssocConnective::Equivalent), &vec![]).unwrap();
    let xor = load_fof_formula(&mut store, &mut symbols, &both(NonAssocConnective::NotEquivalent), &vec![]).unwrap();
    let nor = load_fof_formula(&mut store, &mut symbols, &both(NonAssocConnective::NotOr), &vec![]).unwrap();
    let nand = load_fof_formula(&mut store, &mut symbols, &both(NonAssocConnective::NotAnd), &vec![]).unwrap();
    let not = load_fof_formula(&mut store, &mut symbols, &FofFormula::Unary(Box::new(prop("p"))), &vec![]).unwrap();
    let or = load_fof_formula(
        &mut store,
        &mut symbols,
        &FofFormula::Assoc(AssocConnective::Or, vec![prop("q"), prop("p"), prop("q")]),
        &vec![],
    )
    .unwrap();
    let t = load_fof_formula(&mut store, &mut symbols, &FofFormula::Boolean(true), &vec![]).unwrap();
    let f = load_fof_formula(&mut store, &mut symbols, &FofFormula::Boolean(false), &vec![]).unwrap();
    let p = store.intern(Formula::Prd(symbol_for(&mut symbols, "p", 0), IdList::new()));
    let q = store.intern(Formula::Prd(symbol_for(&mut symbols, "q", 0), IdList::new()));
    assert_eq!(symbols.len(), 2);
    assert_eq!(store.intern(Formula::Imp(p, q)), lr);
    assert_eq!(store.intern(Formula::Imp(q, p)), rl);
    let class = store.intern(Formula::Eqv(set(&[p, q])));
    assert_eq!(class, eqv);
    assert_eq!(Formula::negate(&mut store, class), xor);
    let disjunction = store.intern(Formula::Or(set(&[p, q])));
    assert_eq!(disjunction, or);
    assert_eq!(Formula::negate(&mut store, disjunction), nor);
    let conjunction = store.intern(Formula::And(set(&[p, q])));
    assert_eq!(Formula::negate(&mut store, conjunction), nand);
    assert_eq!(Formula::negate(&mut store, p), not);
    assert_eq!(Formula::truth(&mut store), t);
    assert_eq!(Formula::falsity(&mut store), f);
}

#[test]
fn equations_are_loaded_as_classes() {
    let mut store = Store::new();
    let mut symbols = Symbols::new();
    let equal = FofFormula::Infix(InfixEquality::Equal, constant("b"), constant("a"));
    let unequal = FofFormula::Infix(InfixEquality::NotEqual, constant("a"), constant("b"));
    let eq = load_fof_formula(&mut store, &mut symbols, &equal, &vec![]).unwrap();
    let ne = load_fof_formula(&mut store, &mut symbols, &unequal, &vec![]).unwrap();
    let a = store.intern_term(Term::Fn(symbol_for(&mut symbols, "a", 0), IdList::new()));
    let b = store.intern_term(Term::Fn(symbol_for(&mut symbols, "b", 0), IdList::new()));
    assert_eq!(store.intern(Formula::Eq(set(&[a, b]))), eq);
    assert_eq!(Formula::negate(&mut store, eq), ne);
}

#[test]
fn a_conjecture_is_negated_when_it_is_loaded() {
    let mut store = Store::new();
    let mut symbols = Symbols::new();
    let stated = load_fof(&mut store, &mut symbols, FormulaRole::Axiom, &prop("p")).unwrap();
    let conjecture = load_fof(&mut store, &mut symbols, FormulaRole::Conjecture, &prop("p")).unwrap();
    let negated = load_fof(&mut store, &mut symbols, FormulaRole::NegatedConjecture, &prop("p")).unwrap();
    assert_eq!(Formula::negate(&mut store, stated), conjecture);
    assert_eq!(negated, stated);
    assert_eq!(should_negate(FormulaRole::Conjecture), Ok(true));
    for role in [
        FormulaRole::Axiom,
        FormulaRole::Hypothesis,
        FormulaRole::Definition,
        FormulaRole::Lemma,
        FormulaRole::Theorem,
        FormulaRole::Corollary,
        FormulaRole::NegatedConjecture,
    ] {
        assert_eq!(should_negate(role), Ok(false));
    }
    assert_eq!(should_negate(FormulaRole::Other), Err(LoadError::InputError));
    assert_eq!(
        load_fof(&mut store, &mut symbols, FormulaRole::Other, &prop("p")),
        Err(LoadError::InputError)
    );
}

#[test]
fn the_variables_of_a_clause_are_bound_around_it() {
    let mut store = Store::new();
    let mut symbols = Symbols::new();
    let clause = vec![
        CnfLiteral::Literal(Atom::Predicate("p".to_string(), vec![var("X")])),
        CnfLiteral::NegatedLiteral(Atom::Predicate("q".to_string(), vec![var("X")])),
    ];
    let loaded = load_cnf(&mut store, &mut symbols, FormulaRole::Axiom, &clause).unwrap();
    let p = symbol_for(&mut symbols, "p", 1);
    let q = symbol_for(&mut symbols, "q", 1);
    let x = store.intern_term(Term::Var(0));
    let px = store.intern(Formula::Prd(p, list(&[x])));
    let qx = store.intern(Formula::Prd(q, list(&[x])));
    let not_qx = Formula::negate(&mut store, qx);
    let or = store.intern(Formula::Or(set(&[px, not_qx])));
    assert_eq!(store.intern(Formula::All(or)), loaded);
    let negated = load_cnf(&mut store, &mut symbols, FormulaRole::Conjecture, &clause).unwrap();
    let not_or = Formula::negate(&mut store, or);
    assert_eq!(store.intern(Formula::All(not_or)), negated);
    assert_eq!(
        load_cnf(&mut store, &mut symbols, FormulaRole::Other, &clause),
        Err(LoadError::InputError)
    );
    let ground = vec![CnfLiteral::Literal(Atom::Boolean(false))];
    let loaded = load_cnf(&mut store, &mut symbols, FormulaRole::Axiom, &ground).unwrap();
    let f = Formula::falsity(&mut store);
    assert_eq!(store.intern(Formula::Or(set(&[f]))), loaded);
}

#[test]
fn an_inclusion_is_left_to_the_caller_and_a_selection_is_not_supported() {
    let mut store = Store::new();
    let mut symbols = Symbols::new();
    let mut loading = Loading::new();
    assert_eq!(
        load_statement(&mut store, &mut symbols, &mut loading, &Statement::Include(false)),
        Ok(Step::Include)
    );
    assert_eq!(
        load_statement(&mut store, &mut symbols, &mut loading, &Statement::Include(true)),
        Err(LoadError::Unsupported)
    );
    assert_eq!(
        load_statement(
            &mut store,
            &mut symbols,
            &mut loading,
            &Statement::Fof(FormulaRole::Axiom, prop("p"))
        ),
        Ok(Step::Loaded)
    );
    assert_eq!(store.formula_count(), 1);
}

#[test]
fn a_problem_has_exactly_one_conjecture() {
    let mut store = Store::new();
    let p = store.intern(Formula::Prd(Symbol::Original(0), IdList::new()));
    let q = store.intern(Formula::Prd(Symbol::Original(1), IdList::new()));
    let none = Loading::new();
    assert!(matches!(none.finish(&mut store), Err(LoadError::InputError)));
    let mut axioms = Loading::new();
    axioms.add_formula(FormulaRole::Axiom, p);
    assert!(matches!(axioms.finish(&mut store), Err(LoadError::InputError)));
    let mut two = Loading::new();
    two.add_formula(FormulaRole::Conjecture, p);
    two.add_formula(FormulaRole::NegatedConjecture, q);
    assert!(matches!(two.finish(&mut store), Err(LoadError::InputError)));
    let mut one = Loading::new();
    one.add_formula(FormulaRole::Axiom, q);
    one.add_formula(FormulaRole::Conjecture, p);
    one.add_formula(FormulaRole::Hypothesis, q);
    let goal = one.finish(&mut store).ok().unwrap().goal;
    assert_eq!(store.intern(Formula::And(set(&[p, q]))), goal);
}

#[test]
fn an_axiom_proves_itself() {
    let report = prove(
        vec![
            Statement::Fof(FormulaRole::Axiom, prop("p")),
            Statement::Fof(FormulaRole::Conjecture, prop("p")),
        ],
        100,
    );
    assert!(report.starts_with("% SZS status Theorem for puz\n% SZS output start Refutation for puz\n"));
    assert!(report.contains(", plain, $false).\n"));
    assert!(report.ends_with("% SZS output end Refutation for puz\n"));
}

#[test]
fn an_unrelated_axiom_proves_nothing() {
    let report = prove(
        vec![
            Statement::Fof(FormulaRole::Axiom, prop("p")),
            Statement::Fof(FormulaRole::Conjecture, prop("q")),
        ],
        100,
    );
    assert!(
        report == "% SZS status TimeOut for puz"
            || report.starts_with("% SZS status CounterSatisfiable for puz\n")
    );
}

#[test]
fn a_universal_axiom_proves_its_instance() {
    let report = prove(
        vec![
            Statement::Fof(FormulaRole::Axiom, every(&["X"], pred("p", vec![var("X")]))),
            Statement::Fof(FormulaRole::Conjecture, pred("p", vec![constant("a")])),
        ],
        1000,
    );
    assert!(report.starts_with("% SZS status Theorem for puz\n"));
    assert!(report.contains(", plain, $false).\n"));
}

#[test]
fn the_conjecture_true_is_a_theorem() {
    let report = prove(vec![Statement::Fof(FormulaRole::Conjecture, FofFormula::Boolean(true))], 10);
    assert!(report.starts_with("% SZS status Theorem for puz\n"));
    assert!(report.contains(", plain, $false).\n"));
}

#[test]
fn the_conjecture_false_is_no_theorem() {
    let report = prove(vec![Statement::Fof(FormulaRole::Conjecture, FofFormula::Boolean(false))], 10);
    assert!(report.starts_with("% SZS status CounterSatisfiable for puz\n"));
}

#[test]
fn two_conjectures_are_an_input_error() {
    let report = prove(
        vec![
            Statement::Fof(FormulaRole::Conjecture, prop("p")),
            Statement::Fof(FormulaRole::Conjecture, prop("q")),
        ],
        10,
    );
    assert_eq!(report, "% SZS status InputError for puz");
    let report = prove(vec![Statement::Fof(FormulaRole::Axiom, prop("p"))], 10);
    assert_eq!(report, "% SZS status InputError for puz");
}

#[test]
fn a_fault_of_reading_is_a_fault_of_loading() {
    assert_eq!(convert_error(ReadError::System), LoadError::OSError);
    assert_eq!(convert_error(ReadError::Lexical), LoadError::InputError);
    assert_eq!(convert_error(ReadError::Syntactic), LoadError::InputError);
    assert_eq!(convert_error(ReadError::Include), LoadError::InputError);
    assert_eq!(convert_error(ReadError::UnsupportedDialect), LoadError::Unsupported);
}

#[test]
fn names_and_literals_are_converted() {
    assert_eq!(load_fof_name(Name::Atomic("p".to_string())), "p");
    assert_eq!(load_fof_name(Name::Integer("42".to_string())), "42");
    assert!(matches!(atom_to_fof(Atom::Boolean(true)), FofFormula::Boolean(true)));
    let literal = CnfLiteral::NegatedLiteral(Atom::Predicate("p".to_string(), vec![var("X")]));
    match cnf_literal_to_fof(literal) {
        FofFormula::Unary(inner) => match *inner {
            FofFormula::Predicate(p, arguments) => {
                assert_eq!(p, "p");
                assert_eq!(arguments.len(), 1);
            }
            _ => panic!("no atom"),
        },
        _ => panic!("no negation"),
    }
    let literal = CnfLiteral::Literal(Atom::Infix(InfixEquality::Equal, constant("a"), var("X")));
    assert!(matches!(cnf_literal_to_fof(literal), FofFormula::Infix(InfixEquality::Equal, _, _)));
}
