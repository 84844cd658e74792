use refute::collections::{IdList, IdSet};
use refute::deduction::complete::complete;
use refute::deduction::engine::deductions;
use refute::deduction::inferences::Inferences;
use refute::deduction::weakening::weaken;
use refute::formula::Formula;
use refute::lowering::drop_vacuous;
use refute::store::Store;
use refute::symbol::Symbol;
use refute::term::Term;

fn atom(store: &mut Store, n: usize) -> usize {
    store.intern(Formula::Prd(Symbol::Original(n), IdList::new()))
}

fn set(ids: &[usize]) -> IdSet {
    IdSet::from_vec(&ids.to_vec())
}

fn list(ids: &[usize]) -> IdList {
    IdList::from_vec(&ids.to_vec())
}

fn inferences(deduced: Inferences) -> Vec<Vec<usize>> {
    let mut all: Vec<Vec<usize>> =
        deduced.into_vec().iter().map(|inference| inference.to_vec()).collect();
    all.sort();
    all
}

fn sorted(mut all: Vec<Vec<usize>>) -> Vec<Vec<usize>> {
    for inference in all.iter_mut() {
        inference.sort();
    }
    all.sort();
    all
}

#[test]
fn a_disjunction_gives_its_members() {
    let mut store = Store::new();
    let p = atom(&mut store, 0);
    let q = atom(&mut store, 1);
    let or = store.intern(Formula::Or(set(&[p, q])));
    assert_eq!(inferences(deductions(&mut store, or)), sorted(vec![vec![p, q]]));
}

#[test]
fn an_implication_gives_the_negated_premise_and_the_conclusion() {
    let mut store = Store::new();
    let p = atom(&mut store, 0);
    let q = atom(&mut store, 1);
    let imp = store.intern(Formula::Imp(p, q));
    let found = inferences(deductions(&mut store, imp));
    let not_p = Formula::negate(&mut store, p);
    assert_eq!(found, sorted(vec![vec![not_p, q]]));
}

#[test]
fn a_conjunction_is_weakened_by_each_of_its_members() {
    let mut store = Store::new();
    let p = atom(&mut store, 0);
    let q = atom(&mut store, 1);
    let r = atom(&mut store, 2);
    let and = store.intern(Formula::And(set(&[p, q, r])));
    let found = inferences(deductions(&mut store, and));
    let pq = store.intern(Formula::And(set(&[p, q])));
    let pr = store.intern(Formula::And(set(&[p, r])));
    let qr = store.intern(Formula::And(set(&[q, r])));
    assert_eq!(found, sorted(vec![vec![pq], vec![pr], vec![qr]]));
    let mut weakenings = weaken(&mut store, and).to_vec();
    weakenings.sort();
    let mut expected = vec![pq, pr, qr];
    expected.sort();
    assert_eq!(weakenings, expected);
}

#[test]
fn a_conjunction_takes_the_inferences_of_its_members() {
    let mut store = Store::new();
    let p = atom(&mut store, 0);
    let q = atom(&mut store, 1);
    let r = atom(&mut store, 2);
    let or = store.intern(Formula::Or(set(&[q, r])));
    let and = store.intern(Formula::And(set(&[p, or])));
    let mut deduced = Inferences::new();
    complete(&mut store, &mut deduced, &vec![], and);
    let found = inferences(deduced);
    let pq = store.intern(Formula::And(set(&[p, q])));
    let pr = store.intern(Formula::And(set(&[p, r])));
    assert_eq!(found, sorted(vec![vec![pq, pr]]));
}

#[test]
fn negations_are_pushed_inwards() {
    let mut store = Store::new();
    let p = atom(&mut store, 0);
    let q = atom(&mut store, 1);
    let not_p = Formula::negate(&mut store, p);
    let not_q = Formula::negate(&mut store, q);
    let and = store.intern(Formula::And(set(&[p, q])));
    let or = store.intern(Formula::Or(set(&[p, q])));
    let imp = store.intern(Formula::Imp(p, q));
    let not_and = Formula::negate(&mut store, and);
    let not_or = Formula::negate(&mut store, or);
    let not_imp = Formula::negate(&mut store, imp);
    let not_not = Formula::negate(&mut store, not_p);
    let t = Formula::truth(&mut store);
    let f = Formula::falsity(&mut store);
    let not_t = Formula::negate(&mut store, t);
    let not_f = Formula::negate(&mut store, f);

    let mut deduced = Inferences::new();
    complete(&mut store, &mut deduced, &vec![], not_and);
    assert_eq!(inferences(deduced), sorted(vec![vec![not_p, not_q]]));

    let mut deduced = Inferences::new();
    complete(&mut store, &mut deduced, &vec![], not_or);
    let both = store.intern(Formula::And(set(&[not_p, not_q])));
    assert_eq!(inferences(deduced), sorted(vec![vec![both]]));

    let mut deduced = Inferences::new();
    complete(&mut store, &mut deduced, &vec![], not_imp);
    let refuted = store.intern(Formula::And(set(&[p, not_q])));
    assert_eq!(inferences(deduced), sorted(vec![vec![refuted]]));

    let mut deduced = Inferences::new();
    complete(&mut store, &mut deduced, &vec![], not_not);
    assert_eq!(inferences(deduced), sorted(vec![vec![p]]));

    let mut deduced = Inferences::new();
    complete(&mut store, &mut deduced, &vec![], not_t);
    assert_eq!(inferences(deduced), sorted(vec![vec![f]]));

    let mut deduced = Inferences::new();
    complete(&mut store, &mut deduced, &vec![], not_f);
    assert_eq!(inferences(deduced), Vec::<Vec<usize>>::new());

    let mut deduced = Inferences::new();
    complete(&mut store, &mut deduced, &vec![], p);
    assert_eq!(inferences(deduced), Vec::<Vec<usize>>::new());
}

#[test]
fn an_equivalence_gives_both_or_neither() {
    let mut store = Store::new();
    let p = atom(&mut store, 0);
    let q = atom(&mut store, 1);
    let eqv = store.intern(Formula::Eqv(set(&[p, q])));
    let mut deduced = Inferences::new();
    complete(&mut store, &mut deduced, &vec![], eqv);
    let found = inferences(deduced);
    let not_p = Formula::negate(&mut store, p);
    let not_q = Formula::negate(&mut store, q);
    let rest = store.intern(Formula::Eqv(set(&[q])));
    let both = store.intern(Formula::And(set(&[rest, p, q])));
    let neither = store.intern(Formula::And(set(&[rest, not_p, not_q])));
    assert_eq!(found, sorted(vec![vec![both, neither]]));
}

#[test]
fn a_universal_formula_is_instantiated_with_each_symbol_and_a_new_constant() {
    let mut store = Store::new();
    let x = store.intern_term(Term::Var(0));
    let px = store.intern(Formula::Prd(Symbol::Original(0), list(&[x])));
    let all = store.intern(Formula::All(px));
    let mut deduced = Inferences::new();
    complete(&mut store, &mut deduced, &vec![(Symbol::Original(1), 0)], all);
    let found = inferences(deduced);
    let a = store.intern_term(Term::Fn(Symbol::Original(1), IdList::new()));
    let pa = store.intern(Formula::Prd(Symbol::Original(0), list(&[a])));
    let k = store.intern_term(Term::Fn(Symbol::Introduced(px), IdList::new()));
    let pk = store.intern(Formula::Prd(Symbol::Original(0), list(&[k])));
    assert_eq!(found, sorted(vec![vec![pa], vec![pk]]));

    let ex = store.intern(Formula::Ex(px));
    let mut deduced = Inferences::new();
    complete(&mut store, &mut deduced, &vec![(Symbol::Original(1), 0)], ex);
    assert_eq!(inferences(deduced), sorted(vec![vec![pk]]));
}

#[test]
fn a_class_of_more_than_two_loses_one_member() {
    let mut store = Store::new();
    let a = store.intern_term(Term::Fn(Symbol::Original(0), IdList::new()));
    let b = store.intern_term(Term::Fn(Symbol::Original(1), IdList::new()));
    let c = store.intern_term(Term::Fn(Symbol::Original(2), IdList::new()));
    let eq = store.intern(Formula::Eq(set(&[a, b, c])));
    let mut found = weaken(&mut store, eq).to_vec();
    found.sort();
    let mut expected = vec![
        store.intern(Formula::Eq(set(&[a, b]))),
        store.intern(Formula::Eq(set(&[a, c]))),
        store.intern(Formula::Eq(set(&[b, c]))),
    ];
    expected.sort();
    assert_eq!(found, expected);
    let two = store.intern(Formula::Eq(set(&[a, b])));
    assert_eq!(weaken(&mut store, two).to_vec(), Vec::<usize>::new());
    let p = store.intern(Formula::Prd(Symbol::Original(3), IdList::new()));
    assert_eq!(weaken(&mut store, p).to_vec(), Vec::<usize>::new());
}

#[test]
fn a_variable_is_replaced_by_an_application() {
    let mut store = Store::new();
    let x = store.intern_term(Term::Var(0));
    let y = store.intern_term(Term::Var(1));
    let pxy = store.intern(Formula::Prd(Symbol::Original(0), list(&[x, y])));
    let r = Formula::subst(&mut store, pxy, 0, Symbol::Original(1), 0);
    let a = store.intern_term(Term::Fn(Symbol::Original(1), IdList::new()));
    assert_eq!(store.intern(Formula::Prd(Symbol::Original(0), list(&[a, y]))), r);
    let unchanged = Formula::subst(&mut store, pxy, 5, Symbol::Original(1), 0);
    assert_eq!(unchanged, pxy);
    let t = Term::subst(&mut store, x, 0, Symbol::Original(2), 2);
    let v1 = store.intern_term(Term::Var(1));
    let v0 = store.intern_term(Term::Var(0));
    assert_eq!(store.intern_term(Term::Fn(Symbol::Original(2), list(&[v1, v0]))), t);
}

#[test]
fn the_symbols_of_a_formula_are_listed_once() {
    let mut store = Store::new();
    let a = store.intern_term(Term::Fn(Symbol::Original(1), IdList::new()));
    let faa = store.intern_term(Term::Fn(Symbol::Original(2), list(&[a, a])));
    let pa = store.intern(Formula::Prd(Symbol::Original(0), list(&[a])));
    let pf = store.intern(Formula::Prd(Symbol::Original(0), list(&[faa])));
    let q = store.intern(Formula::Prd(Symbol::Original(3), IdList::new()));
    let and = store.intern(Formula::And(set(&[pa, pf, q])));
    let mut functions = Formula::function_symbols(&store, and);
    functions.sort_by_key(|entry| entry.1);
    assert_eq!(functions, vec![(Symbol::Original(1), 0), (Symbol::Original(2), 2)]);
    let mut predicates = Formula::predicate_symbols(&store, and);
    predicates.sort_by_key(|entry| entry.1);
    assert_eq!(predicates, vec![(Symbol::Original(3), 0), (Symbol::Original(0), 1)]);
}

#[test]
fn a_term_is_replaced_wherever_it_occurs() {
    let mut store = Store::new();
    let a = store.intern_term(Term::Fn(Symbol::Original(1), IdList::new()));
    let b = store.intern_term(Term::Fn(Symbol::Original(2), IdList::new()));
    let x = store.intern_term(Term::Var(0));
    let fax = store.intern_term(Term::Fn(Symbol::Original(3), list(&[a, x])));
    let ffa = store.intern_term(Term::Fn(Symbol::Original(3), list(&[fax, a])));
    let replaced = Term::replace(&mut store, ffa, a, b);
    let fbx = store.intern_term(Term::Fn(Symbol::Original(3), list(&[b, x])));
    assert_eq!(store.intern_term(Term::Fn(Symbol::Original(3), list(&[fbx, b]))), replaced);
    assert_eq!(Term::replace(&mut store, ffa, ffa, b), b);
    assert_eq!(Term::replace(&mut store, x, a, b), x);
    assert_eq!(Term::replace(&mut store, ffa, b, a), ffa);

    let pa = store.intern(Formula::Prd(Symbol::Original(0), list(&[fax])));
    let eq = store.intern(Formula::Eq(set(&[a, x])));
    let and = store.intern(Formula::And(set(&[pa, eq])));
    let all = store.intern(Formula::All(and));
    let not = Formula::negate(&mut store, all);
    let replaced = Formula::replace(&mut store, not, a, b);
    let pb = store.intern(Formula::Prd(Symbol::Original(0), list(&[fbx])));
    let eq_b = store.intern(Formula::Eq(set(&[b, x])));
    let and_b = store.intern(Formula::And(set(&[pb, eq_b])));
    let all_b = store.intern(Formula::All(and_b));
    assert_eq!(Formula::negate(&mut store, all_b), replaced);
    let same = store.intern(Formula::Eq(set(&[a, b])));
    let one = Formula::replace(&mut store, same, a, b);
    assert_eq!(store.intern(Formula::Eq(set(&[b]))), one);
}

#[test]
fn a_formula_is_traversed_level_by_level() {
    let mut store = Store::new();
    let a = store.intern_term(Term::Fn(Symbol::Original(1), IdList::new()));
    let x = store.intern_term(Term::Var(0));
    let fax = store.intern_term(Term::Fn(Symbol::Original(3), list(&[a, x])));
    let ffa = store.intern_term(Term::Fn(Symbol::Original(3), list(&[fax, a])));
    assert_eq!(Term::breadth_first(&store, ffa), vec![ffa, fax, a, a, x]);
    assert_eq!(Term::breadth_first(&store, x), vec![x]);

    let p = store.intern(Formula::Prd(Symbol::Original(0), list(&[fax])));
    let q = atom(&mut store, 4);
    let eq = store.intern(Formula::Eq(set(&[a, x])));
    let not_q = Formula::negate(&mut store, q);
    let or = store.intern(Formula::Or(set(&[q, not_q])));
    let imp = store.intern(Formula::Imp(or, p));
    let and = store.intern(Formula::And(set(&[eq, imp])));
    let all = store.intern(Formula::All(and));
    assert_eq!(
        Formula::breadth_first(&store, all),
        vec![all, and, eq, imp, or, p, q, not_q, q]
    );
    assert_eq!(Formula::breadth_first_terms(&store, all), vec![a, x, fax]);
    assert_eq!(Formula::breadth_first(&store, q), vec![q]);
    assert_eq!(Formula::breadth_first_terms(&store, q), Vec::<usize>::new());
}

#[test]
fn variables_are_lowered_when_a_quantifier_goes() {
    let mut store = Store::new();
    let v0 = store.intern_term(Term::Var(0));
    let v1 = store.intern_term(Term::Var(1));
    let v2 = store.intern_term(Term::Var(2));
    let f12 = store.intern_term(Term::Fn(Symbol::Original(1), list(&[v1, v2])));
    let f01 = store.intern_term(Term::Fn(Symbol::Original(1), list(&[v0, v1])));
    assert!(Term::is_free(&store, f12, 0));
    assert!(!Term::is_free(&store, f12, 1));
    assert!(Term::is_stable(&store, f12, 2));
    assert!(!Term::is_stable(&store, f12, 1));
    assert_eq!(Term::lower(&mut store, f12, 0), f01);
    assert_eq!(Term::lower(&mut store, f12, 2), f12);

    let p12 = store.intern(Formula::Prd(Symbol::Original(0), list(&[f12])));
    let p01 = store.intern(Formula::Prd(Symbol::Original(0), list(&[f01])));
    let inner = store.intern(Formula::Ex(p12));
    assert!(Formula::is_var_free(&store, p12, 0));
    assert!(!Formula::is_var_free(&store, inner, 0));
    assert!(!Formula::is_var_free(&store, inner, 1));
    assert!(Formula::is_var_free(&store, inner, 2));
    assert!(Formula::is_stable(&store, inner, 1));
    assert!(!Formula::is_stable(&store, inner, 0));
    assert_eq!(Formula::lower(&mut store, p12, 0), p01);
    let all = store.intern(Formula::All(p12));
    assert_eq!(drop_vacuous(&mut store, all), p01);
    let bound = store.intern(Formula::All(p01));
    assert_eq!(drop_vacuous(&mut store, bound), bound);
    assert_eq!(drop_vacuous(&mut store, p01), p01);
    let q = atom(&mut store, 5);
    let ex = store.intern(Formula::Ex(q));
    assert_eq!(drop_vacuous(&mut store, ex), q);
}
