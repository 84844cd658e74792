use refute::collections::{IdList, IdSet};
use refute::formula::Formula;
use refute::simplification::simplifier::simplify;
use refute::store::Store;
use refute::symbol::Symbol;
use refute::term::Term;

fn atom(store: &mut Store, n: usize) -> usize {
    store.intern(Formula::Prd(Symbol::Original(n), IdList::new()))
}

fn set(ids: &[usize]) -> IdSet {
    IdSet::from_vec(&ids.to_vec())
}

#[test]
fn empty_conjunction_is_true_and_empty_disjunction_is_false() {
    let mut store = Store::new();
    let and = store.intern(Formula::And(IdSet::empty()));
    let or = store.intern(Formula::Or(IdSet::empty()));
    let t = Formula::truth(&mut store);
    let f = Formula::falsity(&mut store);
    assert_eq!(simplify(&mut store, and), t);
    assert_eq!(simplify(&mut store, or), f);
}

#[test]
fn equation_of_one_term_is_true() {
    let mut store = Store::new();
    let a = store.intern_term(Term::Fn(Symbol::Original(0), IdList::new()));
    let one = store.intern(Formula::Eq(set(&[a])));
    let same = store.intern(Formula::Eq(set(&[a, a])));
    let none = store.intern(Formula::Eq(IdSet::empty()));
    let t = Formula::truth(&mut store);
    assert_eq!(one, same);
    assert_eq!(simplify(&mut store, one), t);
    assert_eq!(simplify(&mut store, none), t);
}

#[test]
fn equation_of_two_terms_stays() {
    let mut store = Store::new();
    let a = store.intern_term(Term::Fn(Symbol::Original(0), IdList::new()));
    let b = store.intern_term(Term::Fn(Symbol::Original(1), IdList::new()));
    let eq = store.intern(Formula::Eq(set(&[a, b])));
    assert_eq!(simplify(&mut store, eq), eq);
}

#[test]
fn constants_are_propagated() {
    let mut store = Store::new();
    let p = atom(&mut store, 0);
    let t = Formula::truth(&mut store);
    let f = Formula::falsity(&mut store);
    let not_t = Formula::negate(&mut store, t);
    let not_f = Formula::negate(&mut store, f);
    let not_p = Formula::negate(&mut store, p);
    assert_eq!(simplify(&mut store, not_t), f);
    assert_eq!(simplify(&mut store, not_f), t);
    let t_p = store.intern(Formula::Imp(t, p));
    let f_p = store.intern(Formula::Imp(f, p));
    let p_t = store.intern(Formula::Imp(p, t));
    let p_f = store.intern(Formula::Imp(p, f));
    assert_eq!(simplify(&mut store, t_p), p);
    assert_eq!(simplify(&mut store, f_p), t);
    assert_eq!(simplify(&mut store, p_t), t);
    assert_eq!(simplify(&mut store, p_f), not_p);
    let q = atom(&mut store, 1);
    let and_f = store.intern(Formula::And(set(&[p, f, q])));
    let and_t = store.intern(Formula::And(set(&[p, t, q])));
    let and = store.intern(Formula::And(set(&[p, q])));
    let or_t = store.intern(Formula::Or(set(&[p, t, q])));
    let or_f = store.intern(Formula::Or(set(&[p, f, q])));
    let or = store.intern(Formula::Or(set(&[p, q])));
    assert_eq!(simplify(&mut store, and_f), f);
    assert_eq!(simplify(&mut store, and_t), and);
    assert_eq!(simplify(&mut store, or_t), t);
    assert_eq!(simplify(&mut store, or_f), or);
}

#[test]
fn equivalence_with_false_becomes_the_negations() {
    let mut store = Store::new();
    let p = atom(&mut store, 0);
    let q = atom(&mut store, 1);
    let f = Formula::falsity(&mut store);
    let eqv = store.intern(Formula::Eqv(set(&[p, f, q])));
    let not_p = Formula::negate(&mut store, p);
    let not_q = Formula::negate(&mut store, q);
    let expected = store.intern(Formula::And(set(&[not_p, not_q])));
    assert_eq!(simplify(&mut store, eqv), expected);
}

#[test]
fn equivalence_loses_a_member_that_is_true() {
    let mut store = Store::new();
    let p = atom(&mut store, 0);
    let q = atom(&mut store, 1);
    let t = Formula::truth(&mut store);
    let eqv = store.intern(Formula::Eqv(set(&[p, t, q])));
    let expected = store.intern(Formula::Eqv(set(&[p, q])));
    assert_eq!(simplify(&mut store, eqv), expected);
}

#[test]
fn contradictions_are_found() {
    let mut store = Store::new();
    let p = atom(&mut store, 0);
    let q = atom(&mut store, 1);
    let not_p = Formula::negate(&mut store, p);
    let t = Formula::truth(&mut store);
    let f = Formula::falsity(&mut store);
    let imp = store.intern(Formula::Imp(p, not_p));
    let pmi = store.intern(Formula::Imp(not_p, p));
    let and = store.intern(Formula::And(set(&[p, q, not_p])));
    let or = store.intern(Formula::Or(set(&[p, q, not_p])));
    let eqv = store.intern(Formula::Eqv(set(&[p, q, not_p])));
    assert_eq!(simplify(&mut store, imp), f);
    assert_eq!(simplify(&mut store, pmi), f);
    assert_eq!(simplify(&mut store, and), f);
    assert_eq!(simplify(&mut store, or), t);
    assert_eq!(simplify(&mut store, eqv), f);
}

#[test]
fn double_negation_is_removed() {
    let mut store = Store::new();
    let p = atom(&mut store, 0);
    let n = Formula::negate(&mut store, p);
    let nn = Formula::negate(&mut store, n);
    let nnn = Formula::negate(&mut store, nn);
    assert_eq!(simplify(&mut store, nn), p);
    assert_eq!(simplify(&mut store, nnn), n);
}

#[test]
fn single_members_and_nested_connectives_are_lifted() {
    let mut store = Store::new();
    let p = atom(&mut store, 0);
    let q = atom(&mut store, 1);
    let r = atom(&mut store, 2);
    let single_and = store.intern(Formula::And(set(&[p])));
    let single_or = store.intern(Formula::Or(set(&[p])));
    assert_eq!(simplify(&mut store, single_and), p);
    assert_eq!(simplify(&mut store, single_or), p);
    let inner = store.intern(Formula::And(set(&[p, q])));
    let outer = store.intern(Formula::And(set(&[inner, r])));
    let flat = store.intern(Formula::And(set(&[p, q, r])));
    assert_eq!(simplify(&mut store, outer), flat);
    let inner = store.intern(Formula::Or(set(&[p, q])));
    let outer = store.intern(Formula::Or(set(&[inner, r])));
    let flat = store.intern(Formula::Or(set(&[p, q, r])));
    assert_eq!(simplify(&mut store, outer), flat);
    let single = store.intern(Formula::Eqv(set(&[p])));
    let t = Formula::truth(&mut store);
    assert_eq!(simplify(&mut store, single), t);
}

#[test]
fn an_implication_and_its_converse_become_an_equivalence() {
    let mut store = Store::new();
    let p = atom(&mut store, 0);
    let q = atom(&mut store, 1);
    let r = atom(&mut store, 2);
    let pq = store.intern(Formula::Imp(p, q));
    let qp = store.intern(Formula::Imp(q, p));
    let and = store.intern(Formula::And(set(&[pq, qp, r])));
    let eqv = store.intern(Formula::Eqv(set(&[p, q])));
    let expected = store.intern(Formula::And(set(&[eqv, r])));
    assert_eq!(simplify(&mut store, and), expected);
    let both = store.intern(Formula::And(set(&[pq, qp])));
    assert_eq!(simplify(&mut store, both), eqv);
}

#[test]
fn equations_that_share_a_term_are_merged() {
    let mut store = Store::new();
    let a = store.intern_term(Term::Fn(Symbol::Original(0), IdList::new()));
    let b = store.intern_term(Term::Fn(Symbol::Original(1), IdList::new()));
    let c = store.intern_term(Term::Fn(Symbol::Original(2), IdList::new()));
    let d = store.intern_term(Term::Fn(Symbol::Original(3), IdList::new()));
    let e = store.intern_term(Term::Fn(Symbol::Original(4), IdList::new()));
    let ab = store.intern(Formula::Eq(set(&[a, b])));
    let bc = store.intern(Formula::Eq(set(&[b, c])));
    let de = store.intern(Formula::Eq(set(&[d, e])));
    let and = store.intern(Formula::And(set(&[ab, bc, de])));
    let abc = store.intern(Formula::Eq(set(&[a, b, c])));
    let expected = store.intern(Formula::And(set(&[abc, de])));
    assert_eq!(simplify(&mut store, and), expected);
}

#[test]
fn equivalence_classes_that_share_a_member_are_merged() {
    let mut store = Store::new();
    let p = atom(&mut store, 0);
    let q = atom(&mut store, 1);
    let r = atom(&mut store, 2);
    let pq = store.intern(Formula::Eqv(set(&[p, q])));
    let qr = store.intern(Formula::Eqv(set(&[q, r])));
    let and = store.intern(Formula::And(set(&[pq, qr])));
    let pqr = store.intern(Formula::Eqv(set(&[p, q, r])));
    assert_eq!(simplify(&mut store, and), pqr);
}

#[test]
fn simplifying_twice_is_simplifying_once() {
    let mut store = Store::new();
    let p = atom(&mut store, 0);
    let q = atom(&mut store, 1);
    let t = Formula::truth(&mut store);
    let f = Formula::falsity(&mut store);
    let not_q = Formula::negate(&mut store, q);
    let not_not_q = Formula::negate(&mut store, not_q);
    let imp = store.intern(Formula::Imp(p, not_not_q));
    let pmi = store.intern(Formula::Imp(q, p));
    let or = store.intern(Formula::Or(set(&[f, imp, p])));
    let and = store.intern(Formula::And(set(&[imp, pmi, t, or])));
    let all = store.intern(Formula::All(and));
    let eqv = store.intern(Formula::Eqv(set(&[all, f, or])));
    for formula in [p, not_not_q, imp, pmi, or, and, all, eqv] {
        let once = simplify(&mut store, formula);
        let twice = simplify(&mut store, once);
        assert_eq!(once, twice);
    }
}

#[test]
fn a_quantifier_over_a_body_without_its_variable_is_dropped() {
    let mut store = Store::new();
    let p = atom(&mut store, 0);
    let all = store.intern(Formula::All(p));
    let ex = store.intern(Formula::Ex(p));
    let both = store.intern(Formula::All(ex));
    assert_eq!(simplify(&mut store, all), p);
    assert_eq!(simplify(&mut store, ex), p);
    assert_eq!(simplify(&mut store, both), p);
}

#[test]
fn variables_bound_further_out_are_renumbered_when_a_quantifier_is_dropped() {
    let mut store = Store::new();
    let inner = store.intern_term(Term::Var(0));
    let outer = store.intern_term(Term::Var(1));
    let p_outer = store.intern(Formula::Prd(Symbol::Original(0), IdList::from_vec(&vec![outer])));
    let p_inner = store.intern(Formula::Prd(Symbol::Original(0), IdList::from_vec(&vec![inner])));
    let ex = store.intern(Formula::Ex(p_outer));
    let all = store.intern(Formula::All(ex));
    let expected = store.intern(Formula::All(p_inner));
    assert_eq!(simplify(&mut store, all), expected);
    let kept = store.intern(Formula::Ex(p_inner));
    assert_eq!(simplify(&mut store, kept), kept);
}

#[test]
fn the_body_of_a_quantifier_is_simplified() {
    let mut store = Store::new();
    let x = store.intern_term(Term::Var(0));
    let p = store.intern(Formula::Prd(Symbol::Original(0), IdList::from_vec(&vec![x])));
    let n = Formula::negate(&mut store, p);
    let nn = Formula::negate(&mut store, n);
    let all = store.intern(Formula::All(nn));
    let expected = store.intern(Formula::All(p));
    assert_eq!(simplify(&mut store, all), expected);
}
