use refute::collections::{IdList, IdSet};
use refute::formula::Formula;
use refute::store::Store;
use refute::symbol::Symbol;
use refute::term::Term;

fn atom(store: &mut Store, n: usize) -> usize {
    store.intern(Formula::Prd(Symbol::Original(n), IdList::new()))
}

#[test]
fn interning_gives_equal_formulae_equal_identifiers() {
    let mut store = Store::new();
    let p = atom(&mut store, 0);
    let q = atom(&mut store, 1);
    let again = atom(&mut store, 0);
    assert_eq!(p, again);
    assert_ne!(p, q);
    let a = store.intern(Formula::And(IdSet::from_vec(&vec![p, q])));
    let b = store.intern(Formula::And(IdSet::from_vec(&vec![q, p, q])));
    assert_eq!(a, b);
    assert_eq!(store.formula_count(), 3);
}

#[test]
fn interning_gives_equal_terms_equal_identifiers() {
    let mut store = Store::new();
    let x = store.intern_term(Term::Var(0));
    let y = store.intern_term(Term::Var(0));
    let z = store.intern_term(Term::Var(1));
    assert_eq!(x, y);
    assert_ne!(x, z);
    let f = store.intern_term(Term::Fn(Symbol::Original(3), IdList::from_vec(&vec![x, z])));
    let g = store.intern_term(Term::Fn(Symbol::Original(3), IdList::from_vec(&vec![y, z])));
    let h = store.intern_term(Term::Fn(Symbol::Original(3), IdList::from_vec(&vec![z, x])));
    assert_eq!(f, g);
    assert_ne!(f, h);
    assert_eq!(store.term_count(), 4);
}

#[test]
fn identifiers_are_never_reused() {
    let mut store = Store::new();
    let t = Formula::truth(&mut store);
    let f = Formula::falsity(&mut store);
    let n = Formula::negate(&mut store, t);
    assert_eq!((t, f, n), (0, 1, 2));
    assert_eq!(Formula::truth(&mut store), 0);
    assert_eq!(store.lookup(&Formula::Not(t)), Some(2));
    assert_eq!(store.lookup(&Formula::Not(f)), None);
}
