use refute::collections::{IdList, IdSet};
use refute::deduction::engine::deductions;
use refute::formula::Formula;
use refute::score::Score;
use refute::search::graph::Search;
use refute::simplification::simplifier::simplify;
use refute::status::Status;
use refute::store::Store;
use refute::symbol::Symbol;

fn atom(store: &mut Store, n: usize) -> usize {
    store.intern(Formula::Prd(Symbol::Original(n), IdList::new()))
}

fn set(ids: &[usize]) -> IdSet {
    IdSet::from_vec(&ids.to_vec())
}

/// The truth value of a propositional formula when the atom with the
/// symbol `n` has the truth value of bit `n` of `bits`.
fn holds(store: &Store, f: usize, bits: u32) -> bool {
    match store.formula(f) {
        Formula::T => true,
        Formula::F => false,
        Formula::Prd(Symbol::Original(n), _) => bits & (1 << n) != 0,
        Formula::Not(p) => !holds(store, *p, bits),
        Formula::Imp(p, q) => !holds(store, *p, bits) || holds(store, *q, bits),
        Formula::And(ps) => ps.to_vec().iter().all(|p| holds(store, *p, bits)),
        Formula::Or(ps) => ps.to_vec().iter().any(|p| holds(store, *p, bits)),
        Formula::Eqv(ps) => {
            let values: Vec<bool> = ps.to_vec().iter().map(|p| holds(store, *p, bits)).collect();
            values.iter().all(|value| *value == values[0])
        }
        _ => panic!("not propositional"),
    }
}

/// Some propositional formulae over three atoms in which no equivalence
/// class has a member that always holds and no implication has sides that
/// never agree.
fn samples(store: &mut Store) -> Vec<usize> {
    let p = atom(store, 0);
    let q = atom(store, 1);
    let r = atom(store, 2);
    let t = Formula::truth(store);
    let f = Formula::falsity(store);
    let not_p = Formula::negate(store, p);
    let not_q = Formula::negate(store, q);
    let not_not_p = Formula::negate(store, not_p);
    let p_q = store.intern(Formula::Imp(p, q));
    let q_p = store.intern(Formula::Imp(q, p));
    let q_r = store.intern(Formula::Imp(q, r));
    let t_p = store.intern(Formula::Imp(t, p));
    let p_f = store.intern(Formula::Imp(p, f));
    let pair = store.intern(Formula::And(set(&[p_q, q_p, r])));
    let chain = store.intern(Formula::And(set(&[p_q, q_r])));
    let excluded = store.intern(Formula::Or(set(&[p, not_p])));
    let clash = store.intern(Formula::And(set(&[p, q, not_p])));
    let pq = store.intern(Formula::Eqv(set(&[p, q])));
    let qr = store.intern(Formula::Eqv(set(&[q, r])));
    let classes = store.intern(Formula::And(set(&[pq, qr, not_q])));
    let with_f = store.intern(Formula::Eqv(set(&[p, f, q])));
    let twisted = store.intern(Formula::Eqv(set(&[p, not_p, q])));
    let inner = store.intern(Formula::And(set(&[p, q])));
    let nested = store.intern(Formula::And(set(&[inner, r, t])));
    let either = store.intern(Formula::Or(set(&[q, r])));
    let wide = store.intern(Formula::Or(set(&[either, p, f])));
    let single = store.intern(Formula::Or(set(&[not_not_p])));
    let not_pair = Formula::negate(store, pair);
    let not_class = Formula::negate(store, pq);
    let mixed = store.intern(Formula::Imp(classes, wide));
    vec![
        p, t, f, not_p, not_not_p, p_q, t_p, p_f, pair, chain, excluded, clash, pq, classes, with_f,
        twisted, nested, wide, single, not_pair, not_class, mixed,
    ]
}

#[test]
fn simplifying_keeps_the_truth_table() {
    let mut store = Store::new();
    for f in samples(&mut store) {
        let r = simplify(&mut store, f);
        for bits in 0..8 {
            assert_eq!(holds(&store, r, bits), holds(&store, f, bits), "formula {} with {}", f, bits);
        }
    }
}

#[test]
fn simplifying_a_simplified_formula_changes_nothing() {
    let mut store = Store::new();
    for f in samples(&mut store) {
        let once = simplify(&mut store, f);
        let twice = simplify(&mut store, once);
        assert_eq!(twice, once);
    }
}

#[test]
fn a_class_with_the_constant_true_loses_it() {
    let mut store = Store::new();
    let p = atom(&mut store, 0);
    let t = Formula::truth(&mut store);
    let class = store.intern(Formula::Eqv(set(&[t, p])));
    assert_eq!(simplify(&mut store, class), t);
    let not_p = Formula::negate(&mut store, p);
    let denial = store.intern(Formula::Imp(p, not_p));
    let f = Formula::falsity(&mut store);
    assert_eq!(simplify(&mut store, denial), f);
}

#[test]
fn where_a_formula_holds_a_member_of_each_deduction_holds() {
    let mut store = Store::new();
    for f in samples(&mut store) {
        let deduced = deductions(&mut store, f).into_vec();
        for inference in deduced {
            for bits in 0..8 {
                if holds(&store, f, bits) {
                    assert!(
                        inference.to_vec().iter().any(|m| holds(&store, *m, bits)),
                        "formula {} with {}",
                        f,
                        bits
                    );
                }
            }
        }
    }
}

fn uct(parent: usize, child: usize, score: Score) -> Score {
    let visits = parent.max(1) as f32;
    let value = f32::from_bits(score.0) + (1.4142 * visits.ln() / (child as f32 + 1.0)).sqrt();
    Score(value.to_bits())
}

fn reaches(search: &Search, from: usize, to: usize, seen: &mut Vec<usize>) -> bool {
    if seen.contains(&from) {
        return false;
    }
    seen.push(from);
    match search.node_children(from) {
        Some(children) => children.iter().any(|inference| {
            inference.to_vec().iter().any(|m| *m == to || reaches(search, *m, to, seen))
        }),
        None => false,
    }
}

fn goals(search: &Search) -> Vec<usize> {
    let mut found = vec![search.root()];
    let mut next = 0;
    while next < found.len() {
        if let Some(children) = search.node_children(found[next]) {
            for inference in children {
                for m in inference.to_vec() {
                    if !found.contains(&m) {
                        found.push(m);
                    }
                }
            }
        }
        next += 1;
    }
    found
}

#[test]
fn no_goal_is_among_its_own_descendants_and_every_verdict_is_what_the_inferences_give() {
    let mut store = Store::new();
    let p = atom(&mut store, 0);
    let q = atom(&mut store, 1);
    let r = atom(&mut store, 2);
    let not_q = Formula::negate(&mut store, q);
    let p_q = store.intern(Formula::Imp(p, q));
    let q_r = store.intern(Formula::Imp(q, r));
    let not_r = Formula::negate(&mut store, r);
    let goal = store.intern(Formula::And(set(&[p, p_q, q_r, not_r, not_q])));
    let mut search = Search::new(&store, goal);
    let mut steps = 0;
    while !search.status().is_known() && steps < 200 {
        search.do_step(&mut store, &uct);
        steps += 1;
        for n in goals(&search) {
            assert!(!reaches(&search, n, n, &mut vec![]));
            if search.node_children(n).is_some() {
                assert_eq!(search.node_status(n), search.computed_status(n));
            }
        }
    }
    assert_eq!(search.status(), Status::Unsat);
    let f = Formula::falsity(&mut store);
    assert!(search.refutation().contains(&f));
    assert_eq!(search.refutation()[0], goal);
}
