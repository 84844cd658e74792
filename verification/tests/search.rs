use refute::collections::{IdList, IdSet};
use refute::formula::Formula;
use refute::score::Score;
use refute::search::graph::Search;
use refute::simplification::simplifier::simplify;
use refute::status::Status;
use refute::store::Store;
use refute::symbol::Symbol;
use refute::term::Term;

fn atom(store: &mut Store, n: usize) -> usize {
    store.intern(Formula::Prd(Symbol::Original(n), IdList::new()))
}

fn set(ids: &[usize]) -> IdSet {
    IdSet::from_vec(&ids.to_vec())
}

fn uct(parent: usize, child: usize, score: Score) -> Score {
    let visits = parent.max(1) as f32;
    let value = f32::from_bits(score.0) + (1.4142 * visits.ln() / (child as f32 + 1.0)).sqrt();
    Score(value.to_bits())
}

fn mean(scores: &Vec<Score>) -> Score {
    let total: f32 = scores.iter().map(|score| f32::from_bits(score.0)).sum();
    Score((total / scores.len() as f32).to_bits())
}

fn run(store: &mut Store, search: &mut Search, limit: usize) -> Status {
    let mut steps = 0;
    while !search.status().is_known() && steps < limit {
        search.do_step(store, &uct);
        steps += 1;
    }
    search.status()
}

#[test]
fn a_goal_equal_to_false_is_refuted_at_once() {
    let mut store = Store::new();
    let f = Formula::falsity(&mut store);
    let search = Search::new(&store, f);
    assert_eq!(search.status(), Status::Unsat);
    assert_eq!(search.refutation(), vec![f]);
}

#[test]
fn an_axiom_refutes_its_own_negation() {
    let mut store = Store::new();
    let p = atom(&mut store, 0);
    let not_p = Formula::negate(&mut store, p);
    let goal = store.intern(Formula::And(set(&[p, not_p])));
    let simplified = simplify(&mut store, goal);
    let f = Formula::falsity(&mut store);
    assert_eq!(simplified, f);
    let search = Search::new(&store, simplified);
    assert_eq!(search.status(), Status::Unsat);
    assert!(search.refutation().contains(&f));
}

#[test]
fn an_unrelated_axiom_refutes_nothing() {
    let mut store = Store::new();
    let p = atom(&mut store, 0);
    let q = atom(&mut store, 1);
    let not_q = Formula::negate(&mut store, q);
    let goal = store.intern(Formula::And(set(&[p, not_q])));
    let simplified = simplify(&mut store, goal);
    let mut search = Search::new(&store, simplified);
    assert_eq!(search.status(), Status::Unknown);
    assert_eq!(run(&mut store, &mut search, 100), Status::Sat);
}

#[test]
fn a_universal_axiom_is_instantiated() {
    let mut store = Store::new();
    let x = store.intern_term(Term::Var(0));
    let a = store.intern_term(Term::Fn(Symbol::Original(1), IdList::new()));
    let px = store.intern(Formula::Prd(Symbol::Original(0), IdList::from_vec(&vec![x])));
    let pa = store.intern(Formula::Prd(Symbol::Original(0), IdList::from_vec(&vec![a])));
    let all = store.intern(Formula::All(px));
    let not_pa = Formula::negate(&mut store, pa);
    let goal = store.intern(Formula::And(set(&[all, not_pa])));
    let simplified = simplify(&mut store, goal);
    let mut search = Search::new(&store, simplified);
    assert_eq!(run(&mut store, &mut search, 100), Status::Unsat);
    let f = Formula::falsity(&mut store);
    let listing = search.refutation();
    assert_eq!(listing[0], simplified);
    assert!(listing.contains(&f));
}

#[test]
fn a_true_conjecture_is_a_theorem() {
    let mut store = Store::new();
    let t = Formula::truth(&mut store);
    let not_t = Formula::negate(&mut store, t);
    let goal = store.intern(Formula::And(set(&[not_t])));
    let simplified = simplify(&mut store, goal);
    let search = Search::new(&store, simplified);
    assert_eq!(search.status(), Status::Unsat);
}

#[test]
fn a_false_conjecture_is_no_theorem() {
    let mut store = Store::new();
    let f = Formula::falsity(&mut store);
    let not_f = Formula::negate(&mut store, f);
    let goal = store.intern(Formula::And(set(&[not_f])));
    let simplified = simplify(&mut store, goal);
    let t = Formula::truth(&mut store);
    assert_eq!(simplified, t);
    let mut search = Search::new(&store, simplified);
    assert_eq!(run(&mut store, &mut search, 100), Status::Sat);
}

#[test]
fn a_final_verdict_never_changes() {
    let mut store = Store::new();
    let p = atom(&mut store, 0);
    let mut search = Search::new(&store, p);
    search.set_status(p, Status::Unknown);
    assert_eq!(search.status(), Status::Unknown);
    search.set_status(p, Status::Sat);
    assert_eq!(search.status(), Status::Sat);
    search.set_status(p, Status::Unsat);
    assert_eq!(search.status(), Status::Sat);
    search.set_status(p, Status::Unknown);
    assert_eq!(search.status(), Status::Sat);
}

#[test]
fn a_score_is_kept_unless_the_verdict_is_final() {
    let mut store = Store::new();
    let p = atom(&mut store, 0);
    let mut search = Search::new(&store, p);
    assert_eq!(search.node_score(p), Score(0));
    search.set_score(p, Score::half(), &mean);
    assert_eq!(search.node_score(p), Score::half());
    search.set_status(p, Status::Unsat);
    search.set_score(p, Score::one(), &mean);
    assert_eq!(search.node_score(p), Score::half());
}

#[test]
fn verdicts_from_outside_reach_the_root() {
    let mut store = Store::new();
    let p = atom(&mut store, 0);
    let q = atom(&mut store, 1);
    let goal = store.intern(Formula::Or(set(&[p, q])));
    let mut search = Search::new(&store, goal);
    let fresh = search.do_step(&mut store, &uct).unwrap();
    assert_eq!(fresh, vec![p, q]);
    assert_eq!(search.status(), Status::Unknown);
    search.set_status(p, Status::Unsat);
    assert_eq!(search.status(), Status::Unknown);
    search.set_status(q, Status::Unsat);
    assert_eq!(search.status(), Status::Unsat);
    assert_eq!(search.refutation(), vec![goal, p, q]);
    let node = search.node(p).unwrap();
    assert_eq!(node.parents, vec![goal]);
    assert!(node.children.is_none());
    assert!(search.node(goal).unwrap().children.is_some());
    assert_eq!(search.node_visits(goal), 1);
}

#[test]
fn scores_reach_the_goals_above() {
    let mut store = Store::new();
    let p = atom(&mut store, 0);
    let q = atom(&mut store, 1);
    let goal = store.intern(Formula::Or(set(&[p, q])));
    let mut search = Search::new(&store, goal);
    search.do_step(&mut store, &uct);
    search.set_score(p, Score::one(), &mean);
    assert_eq!(search.node_score(goal), Score::half());
    search.set_score(q, Score::one(), &mean);
    assert_eq!(search.node_score(goal), Score::one());
    search.set_status(q, Status::Sat);
    search.set_score(p, Score::half(), &mean);
    assert_eq!(search.node_score(goal), Score(0));
}

#[test]
fn the_goal_false_is_refuted_by_what_its_inferences_give() {
    let mut store = Store::new();
    let f = Formula::falsity(&mut store);
    let search = Search::new(&store, f);
    assert_eq!(search.computed_status(f), Status::Unsat);
}

#[test]
fn selection_counts_a_visit_of_each_goal_on_its_way() {
    let mut store = Store::new();
    let p = atom(&mut store, 0);
    let q = atom(&mut store, 1);
    let goal = store.intern(Formula::Or(set(&[p, q])));
    let mut search = Search::new(&store, goal);
    assert_eq!(search.node_visits(goal), 0);
    let fresh = search.do_step(&mut store, &uct).unwrap();
    assert_eq!(search.node_visits(goal), 1);
    for m in &fresh {
        assert_eq!(search.node_visits(*m), 0);
        assert_eq!(search.node_score(*m), Score(0));
        assert_eq!(search.node_parents(*m), &vec![goal]);
    }
    let leaf = search.select(&uct).unwrap();
    assert_eq!(leaf, p);
    assert_eq!(search.node_visits(goal), 2);
    assert_eq!(search.node_visits(p), 1);
    assert_eq!(search.node_visits(q), 0);
}
