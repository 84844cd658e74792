//! Loading the statements of a problem: formulae and clauses with their
//! roles, and the goal that they make together.
//!
//! A conjecture is negated when it is loaded. The variables of a clause are
//! bound by universal quantifiers around it. The goal is the conjunction of
//! all that was loaded, and a problem has exactly one conjecture, negated or
//! not.

use crate::collections::{Id, IdSet};
use crate::formula::{Formula, FormulaView};
use crate::input::{
    formula_read,
    join,
    lemma_formula_read_kept,
    load_fof_formula,
    load_infix,
    load_predicate,
    quantify,
    scoped,
    term_scoped,
    LoadError,
};
use crate::names::{grown, Symbols};
use crate::smtlib2::Names;
use crate::store::{Store, StoreView};
use crate::syntax::{
    atom_formula, literal_atom, literal_formula, literal_views, name_views, term_views,
    AssocConnective, Atom, AtomView, CnfLiteral, CnfLiteralView, FofFormula, FofFormulaView,
    FofQuantifier, FofTerm, FofTermView, FormulaRole, Name, ReadError, Statement,
};
use vstd::prelude::*;

verus! {

/// Whether a formula with the role `role` is negated when it is loaded, if
/// the role is one that a problem may use.
pub open spec fn negated_role(role: FormulaRole) -> Option<bool> {
    match role {
        FormulaRole::Conjecture => Some(true),
        FormulaRole::Other => None,
        _ => Some(false),
    }
}

/// Whether a formula with the role `role` is negated when it is loaded; an
/// input error if the role is none that a problem may use.
pub fn should_negate(role: FormulaRole) -> (negate: Result<bool, LoadError>)
    ensures
        negate == match negated_role(role) {
            Some(negate) => Ok::<bool, LoadError>(negate),
            None => Err::<bool, LoadError>(LoadError::InputError),
        },
{
    match role {
        FormulaRole::Axiom => Ok(false),
        FormulaRole::Hypothesis => Ok(false),
        FormulaRole::Definition => Ok(false),
        FormulaRole::Lemma => Ok(false),
        FormulaRole::Theorem => Ok(false),
        FormulaRole::Corollary => Ok(false),
        FormulaRole::NegatedConjecture => Ok(false),
        FormulaRole::Conjecture => Ok(true),
        FormulaRole::Other => Err(LoadError::InputError),
    }
}

/// What a written formula states: its negation if `negate`, else itself.
pub open spec fn stated(formula: FofFormulaView, negate: bool) -> FofFormulaView {
    if negate {
        FofFormulaView::Unary(Box::new(formula))
    } else {
        formula
    }
}

/// The formula of the store that the closed written formula `formula`
/// states in the role `role`; an input error if a variable is not bound or
/// the role is none that a problem may use.
pub fn load_fof(store: &mut Store, symbols: &mut Symbols, role: FormulaRole, formula: &FofFormula) -> (loaded:
    Result<Id, LoadError>)
    requires
        old(store).wf(),
        old(symbols).wf(),
    ensures
        final(store).wf(),
        final(symbols).wf(),
        final(store)@.extends(old(store)@),
        grown(old(symbols)@, final(symbols)@),
        loaded is Ok <==> scoped(formula@, Seq::empty()) && negated_role(role) is Some,
        loaded matches Ok(f) ==> formula_read(
            final(store)@,
            final(symbols)@,
            f,
            stated(formula@, negated_role(role).unwrap()),
            Seq::empty(),
        ),
        loaded matches Err(e) ==> e == LoadError::InputError,
{
    let bound: Vec<String> = Vec::new();
    proof {
        assert(name_views(&bound) =~= Seq::empty());
    }
    let f = match load_fof_formula(store, symbols, formula, &bound) {
        Ok(f) => f,
        Err(e) => {
            return Err(e);
        },
    };
    match should_negate(role) {
        Ok(true) => {
            let ghost s1 = store@;
            let g = Formula::negate(store, f);
            proof {
                lemma_formula_read_kept(
                    s1,
                    symbols@,
                    store@,
                    symbols@,
                    f,
                    formula@,
                    Seq::empty(),
                );
            }
            Ok(g)
        },
        Ok(false) => Ok(f),
        Err(e) => Err(e),
    }
}

/// Whether the variable `x` occurs in the written term.
pub open spec fn term_occurs(term: FofTermView, x: Seq<char>) -> bool
    decreases term,
{
    match term {
        FofTermView::Variable(y) => y == x,
        FofTermView::Functor(_, ts) => terms_occur(ts, x),
    }
}

/// Whether the variable `x` occurs in one of the written terms.
pub open spec fn terms_occur(ts: Seq<FofTermView>, x: Seq<char>) -> bool
    decreases ts,
{
    exists|k: int| 0 <= k < ts.len() && term_occurs(#[trigger] ts[k], x)
}

/// Whether the variable `x` occurs in the written atom.
pub open spec fn atom_occurs(atom: AtomView, x: Seq<char>) -> bool {
    match atom {
        AtomView::Boolean(_) => false,
        AtomView::Infix(_, left, right) => term_occurs(left, x) || term_occurs(right, x),
        AtomView::Predicate(_, ts) => terms_occur(ts, x),
    }
}

/// Whether the variable `x` occurs in one of the first `n` literals.
pub open spec fn clause_occurs(literals: Seq<CnfLiteralView>, n: int, x: Seq<char>) -> bool {
    exists|k: int| 0 <= k < n && k < literals.len() && atom_occurs(literal_atom(#[trigger] literals[k]), x)
}

/// A term whose variables are all among `bound` is in the scope of `bound`.
pub proof fn lemma_term_scoped(term: FofTermView, bound: Seq<Seq<char>>)
    requires
        forall|x: Seq<char>| term_occurs(term, x) ==> bound.contains(x),
    ensures
        term_scoped(term, bound),
    decreases term,
{
    match term {
        FofTermView::Variable(y) => {
            assert(term_occurs(term, y));
        },
        FofTermView::Functor(_, ts) => {
            assert forall|k: int| 0 <= k < ts.len() implies term_scoped(
                #[trigger] ts[k],
                bound,
            ) by {
                assert forall|x: Seq<char>| term_occurs(ts[k], x) implies bound.contains(x) by {
                    assert(terms_occur(ts, x));
                    assert(term_occurs(term, x));
                }
                lemma_term_scoped(ts[k], bound);
            }
        },
    }
}

/// Whether `new` holds the names `old` and the names that `more` holds of,
/// and no others.
pub open spec fn gathers(
    old: Seq<Seq<char>>,
    new: Seq<Seq<char>>,
    more: spec_fn(Seq<char>) -> bool,
) -> bool {
    forall|x: Seq<char>| #[trigger] new.contains(x) <==> old.contains(x) || more(x)
}

/// The names `vars`, and `x` after them if it is none of them.
fn noted(vars: Vec<String>, x: &String) -> (all: Vec<String>)
    requires
        name_views(&vars).no_duplicates(),
    ensures
        name_views(&all).no_duplicates(),
        gathers(name_views(&vars), name_views(&all), |y: Seq<char>| y == x@),
{
    let ghost before = name_views(&vars);
    let n = vars.len();
    let mut i: usize = 0;
    while i < n
        invariant
            n == vars@.len(),
            i <= n,
            before == name_views(&vars),
            before.no_duplicates(),
            forall|k: int| 0 <= k < i ==> vars@[k]@ != x@,
        decreases n - i,
    {
        if vars[i] == *x {
            proof {
                assert(before[i as int] == x@);
                assert(before.contains(x@));
            }
            return vars;
        }
        i += 1;
    }
    let mut all = vars;
    all.push(x.clone());
    proof {
        let after = name_views(&all);
        assert(after =~= before.push(x@));
        assert forall|y: Seq<char>| #[trigger] after.contains(y) <==> before.contains(y) || y
            == x@ by {
            if after.contains(y) {
                let k = choose|k: int| 0 <= k < after.len() && after[k] == y;
                if k < before.len() {
                    assert(before[k] == y);
                }
            }
            if before.contains(y) {
                let k = choose|k: int| 0 <= k < before.len() && before[k] == y;
                assert(after[k] == y);
            }
            if y == x@ {
                assert(after[before.len() as int] == y);
            }
        }
        assert forall|a: int, b: int| 0 <= a < after.len() && 0 <= b < after.len() && a
            != b implies after[a] != after[b] by {
            if a < before.len() && b < before.len() {
                assert(before[a] != before[b]);
            }
        }
    }
    all
}

/// The names `vars`, and after them the variables of the term that are
/// none of them.
fn term_variables(term: &FofTerm, vars: Vec<String>) -> (all: Vec<String>)
    requires
        name_views(&vars).no_duplicates(),
    ensures
        name_views(&all).no_duplicates(),
        gathers(name_views(&vars), name_views(&all), |x: Seq<char>| term_occurs(term@, x)),
    decreases term,
{
    match term {
        FofTerm::Variable(x) => {
            proof {
                assert(term@ matches FofTermView::Variable(y) && y == x@);
            }
            noted(vars, x)
        },
        FofTerm::Functor(_, ts) => {
            proof {
                assert(term@ matches FofTermView::Functor(_, us) && us == term_views(ts));
            }
            terms_variables(ts, vars)
        },
    }
}

/// The names `vars`, and after them the variables of the terms that are
/// none of them.
fn terms_variables(ts: &Vec<FofTerm>, vars: Vec<String>) -> (all: Vec<String>)
    requires
        name_views(&vars).no_duplicates(),
    ensures
        name_views(&all).no_duplicates(),
        gathers(
            name_views(&vars),
            name_views(&all),
            |x: Seq<char>| terms_occur(term_views(ts), x),
        ),
    decreases ts,
{
    let ghost before = name_views(&vars);
    let ghost views = term_views(ts);
    let mut all = vars;
    let n = ts.len();
    let mut i: usize = 0;
    while i < n
        invariant
            n == ts@.len(),
            i <= n,
            views == term_views(ts),
            name_views(&all).no_duplicates(),
            gathers(before, name_views(&all), |x: Seq<char>| terms_occur(views.take(i as int), x)),
        decreases n - i,
    {
        let ghost middle = name_views(&all);
        all = term_variables(&ts[i], all);
        proof {
            let after = name_views(&all);
            assert(views[i as int] == ts[i as int]@);
            assert forall|x: Seq<char>| #[trigger] after.contains(x) <==> before.contains(x)
                || terms_occur(views.take(i + 1), x) by {
                assert(middle.contains(x) <==> before.contains(x) || terms_occur(
                    views.take(i as int),
                    x,
                ));
                if terms_occur(views.take(i as int), x) {
                    let k = choose|k: int|
                        0 <= k < views.take(i as int).len() && term_occurs(
                            #[trigger] views.take(i as int)[k],
                            x,
                        );
                    assert(views.take(i + 1)[k] == views.take(i as int)[k]);
                }
                if term_occurs(views[i as int], x) {
                    assert(views.take(i + 1)[i as int] == views[i as int]);
                }
                if terms_occur(views.take(i + 1), x) {
                    let k = choose|k: int|
                        0 <= k < views.take(i + 1).len() && term_occurs(
                            #[trigger] views.take(i + 1)[k],
                            x,
                        );
                    if k < i {
                        assert(views.take(i as int)[k] == views.take(i + 1)[k]);
                    }
                }
            }
        }
        i += 1;
    }
    proof {
        assert(views.take(n as int) =~= views);
    }
    all
}

/// The variables of the literals, each once, in the order in which they
/// first occur.
fn clause_variables(literals: &Vec<CnfLiteral>) -> (all: Vec<String>)
    ensures
        is_variables(name_views(&all), literal_views(literals)),
{
    let ghost views = literal_views(literals);
    let mut all: Vec<String> = Vec::new();
    let n = literals.len();
    let mut i: usize = 0;
    proof {
        assert(name_views(&all) =~= Seq::empty());
    }
    while i < n
        invariant
            n == literals@.len(),
            i <= n,
            views == literal_views(literals),
            name_views(&all).no_duplicates(),
            forall|x: Seq<char>| #[trigger]
                name_views(&all).contains(x) <==> clause_occurs(views, i as int, x),
        decreases n - i,
    {
        let ghost middle = name_views(&all);
        let atom = match &literals[i] {
            CnfLiteral::Literal(atom) => atom,
            CnfLiteral::NegatedLiteral(atom) => atom,
        };
        proof {
            assert(views[i as int] == literals[i as int]@);
            assert(atom@ == literal_atom(views[i as int]));
        }
        match atom {
            Atom::Boolean(_) => {},
            Atom::Infix(_, left, right) => {
                all = term_variables(left, all);
                all = term_variables(right, all);
            },
            Atom::Predicate(_, ts) => {
                all = terms_variables(ts, all);
            },
        }
        proof {
            let after = name_views(&all);
            assert forall|x: Seq<char>| #[trigger] after.contains(x) <==> clause_occurs(
                views,
                i + 1,
                x,
            ) by {
                assert(middle.contains(x) <==> clause_occurs(views, i as int, x));
                assert(after.contains(x) <==> middle.contains(x) || atom_occurs(atom@, x));
                if clause_occurs(views, i as int, x) {
                    let k = choose|k: int|
                        0 <= k < i && k < views.len() && atom_occurs(
                            literal_atom(#[trigger] views[k]),
                            x,
                        );
                    assert(atom_occurs(literal_atom(views[k]), x));
                }
                if clause_occurs(views, i + 1, x) {
                    let k = choose|k: int|
                        0 <= k < i + 1 && k < views.len() && atom_occurs(
                            literal_atom(#[trigger] views[k]),
                            x,
                        );
                    if k < i {
                        assert(clause_occurs(views, i as int, x));
                    }
                }
            }
        }
        i += 1;
    }
    all
}

/// Whether `vars` holds, each once, the variables that occur in the
/// literals.
pub open spec fn is_variables(vars: Seq<Seq<char>>, literals: Seq<CnfLiteralView>) -> bool {
    &&& vars.no_duplicates()
    &&& forall|x: Seq<char>| #[trigger]
        vars.contains(x) <==> clause_occurs(literals, literals.len() as int, x)
}

/// The literals as formulae.
pub open spec fn literal_formulae(literals: Seq<CnfLiteralView>) -> Seq<FofFormulaView> {
    Seq::new(literals.len(), |k: int| literal_formula(literals[k]))
}

/// What a clause states: the disjunction of its literals, or the negation
/// of that if `negate`, for all values of the variables `vars`.
pub open spec fn clause_formula(
    literals: Seq<CnfLiteralView>,
    negate: bool,
    vars: Seq<Seq<char>>,
) -> FofFormulaView {
    FofFormulaView::Quantified(
        FofQuantifier::Forall,
        vars,
        Box::new(
            stated(FofFormulaView::Assoc(AssocConnective::Or, literal_formulae(literals)), negate),
        ),
    )
}

/// Whether the formula `f` of the store is what the clause of the literals
/// `literals` states, with its variables bound in some order.
pub open spec fn clause_read(
    s: StoreView,
    names: Names,
    f: Id,
    literals: Seq<CnfLiteralView>,
    negate: bool,
) -> bool {
    exists|vars: Seq<Seq<char>>|
        is_variables(vars, literals) && formula_read(
            s,
            names,
            f,
            #[trigger] clause_formula(literals, negate, vars),
            Seq::empty(),
        )
}

/// A literal whose variables are all among `bound` is in the scope of
/// `bound`.
pub proof fn lemma_literal_scoped(literal: CnfLiteralView, bound: Seq<Seq<char>>)
    requires
        forall|x: Seq<char>| atom_occurs(literal_atom(literal), x) ==> bound.contains(x),
    ensures
        scoped(literal_formula(literal), bound),
{
    let atom = literal_atom(literal);
    match atom {
        AtomView::Boolean(_) => {},
        AtomView::Infix(_, left, right) => {
            lemma_term_scoped(left, bound);
            lemma_term_scoped(right, bound);
        },
        AtomView::Predicate(_, ts) => {
            assert forall|k: int| 0 <= k < ts.len() implies term_scoped(
                #[trigger] ts[k],
                bound,
            ) by {
                assert forall|x: Seq<char>| term_occurs(ts[k], x) implies bound.contains(x) by {
                    assert(terms_occur(ts, x));
                }
                lemma_term_scoped(ts[k], bound);
            }
        },
    }
    let whole = atom_formula(atom);
    assert(scoped(whole, bound));
    match literal {
        CnfLiteralView::Literal(_) => {},
        CnfLiteralView::NegatedLiteral(_) => {
            let negated = literal_formula(literal);
            assert(negated matches FofFormulaView::Unary(g) && *g == whole);
        },
    }
}

/// The formula of the store for the written atom.
fn load_atom(store: &mut Store, symbols: &mut Symbols, atom: &Atom, bound: &Vec<String>) -> (loaded:
    Result<Id, LoadError>)
    requires
        old(store).wf(),
        old(symbols).wf(),
    ensures
        final(store).wf(),
        final(symbols).wf(),
        final(store)@.extends(old(store)@),
        grown(old(symbols)@, final(symbols)@),
        loaded is Ok <==> scoped(atom_formula(atom@), name_views(bound)),
        loaded matches Ok(f) ==> formula_read(
            final(store)@,
            final(symbols)@,
            f,
            atom_formula(atom@),
            name_views(bound),
        ),
        loaded matches Err(e) ==> e == LoadError::InputError,
{
    match atom {
        Atom::Boolean(b) => {
            if *b {
                Ok(Formula::truth(store))
            } else {
                Ok(Formula::falsity(store))
            }
        },
        Atom::Infix(op, left, right) => load_infix(store, symbols, *op, left, right, bound),
        Atom::Predicate(p, ts) => load_predicate(store, symbols, p, ts, bound),
    }
}

/// The formula of the store for the written literal.
fn load_literal(
    store: &mut Store,
    symbols: &mut Symbols,
    literal: &CnfLiteral,
    bound: &Vec<String>,
) -> (loaded: Result<Id, LoadError>)
    requires
        old(store).wf(),
        old(symbols).wf(),
    ensures
        final(store).wf(),
        final(symbols).wf(),
        final(store)@.extends(old(store)@),
        grown(old(symbols)@, final(symbols)@),
        loaded is Ok <==> scoped(literal_formula(literal@), name_views(bound)),
        loaded matches Ok(f) ==> formula_read(
            final(store)@,
            final(symbols)@,
            f,
            literal_formula(literal@),
            name_views(bound),
        ),
        loaded matches Err(e) ==> e == LoadError::InputError,
{
    match literal {
        CnfLiteral::Literal(atom) => load_atom(store, symbols, atom, bound),
        CnfLiteral::NegatedLiteral(atom) => {
            proof {
                let negated = literal_formula(literal@);
                assert(negated matches FofFormulaView::Unary(g) && *g == atom_formula(atom@));
            }
            match load_atom(store, symbols, atom, bound) {
                Ok(p) => {
                    let ghost s1 = store@;
                    let f = Formula::negate(store, p);
                    proof {
                        lemma_formula_read_kept(
                            s1,
                            symbols@,
                            store@,
                            symbols@,
                            p,
                            atom_formula(atom@),
                            name_views(bound),
                        );
                    }
                    Ok(f)
                },
                Err(e) => Err(e),
            }
        },
    }
}

/// The formula of the store that the clause of the literals `literals`
/// states in the role `role`: the disjunction of the literals, negated for
/// a conjecture, below a universal quantifier for each variable of the
/// clause. An input error if the role is none that a problem may use.
pub fn load_cnf(
    store: &mut Store,
    symbols: &mut Symbols,
    role: FormulaRole,
    literals: &Vec<CnfLiteral>,
) -> (loaded: Result<Id, LoadError>)
    requires
        old(store).wf(),
        old(symbols).wf(),
    ensures
        final(store).wf(),
        final(symbols).wf(),
        final(store)@.extends(old(store)@),
        grown(old(symbols)@, final(symbols)@),
        loaded is Ok <==> negated_role(role) is Some,
        loaded matches Ok(f) ==> clause_read(
            final(store)@,
            final(symbols)@,
            f,
            literal_views(literals),
            negated_role(role).unwrap(),
        ),
        loaded matches Err(e) ==> e == LoadError::InputError,
{
    let negate = match should_negate(role) {
        Ok(negate) => negate,
        Err(e) => {
            return Err(e);
        },
    };
    let vars = clause_variables(literals);
    let ghost views = literal_views(literals);
    let ghost written = literal_formulae(views);
    let ghost scope = name_views(&vars);
    let mut ps: Vec<Id> = Vec::new();
    let n = literals.len();
    let mut i: usize = 0;
    while i < n
        invariant
            n == literals@.len(),
            i <= n,
            views == literal_views(literals),
            written == literal_formulae(views),
            scope == name_views(&vars),
            is_variables(scope, views),
            store.wf(),
            symbols.wf(),
            store@.extends(old(store)@),
            grown(old(symbols)@, symbols@),
            ps@.len() == i,
            forall|k: int|
                0 <= k < i ==> formula_read(store@, symbols@, #[trigger] ps@[k], written[k], scope),
        decreases n - i,
    {
        let ghost s1 = store@;
        let ghost names1 = symbols@;
        let ghost listed = ps@;
        proof {
            assert(views[i as int] == literals[i as int]@);
            assert forall|x: Seq<char>|
                atom_occurs(literal_atom(views[i as int]), x) implies scope.contains(x) by {
                assert(clause_occurs(views, views.len() as int, x));
            }
            lemma_literal_scoped(views[i as int], scope);
        }
        match load_literal(store, symbols, &literals[i], &vars) {
            Ok(f) => {
                ps.push(f);
                proof {
                    assert forall|k: int| 0 <= k < i + 1 implies formula_read(
                        store@,
                        symbols@,
                        #[trigger] ps@[k],
                        written[k],
                        scope,
                    ) by {
                        if k < i {
                            assert(ps@[k] == listed[k]);
                            lemma_formula_read_kept(
                                s1,
                                names1,
                                store@,
                                symbols@,
                                listed[k],
                                written[k],
                                scope,
                            );
                        }
                    }
                }
            },
            Err(e) => {
                return Err(e);
            },
        }
        i += 1;
    }
    let ghost disjunction = FofFormulaView::Assoc(AssocConnective::Or, written);
    let joined = join(store, AssocConnective::Or, &ps, Ghost(symbols@), Ghost(written), Ghost(scope));
    let ghost s2 = store@;
    let body = if negate {
        let g = Formula::negate(store, joined);
        proof {
            lemma_formula_read_kept(s2, symbols@, store@, symbols@, joined, disjunction, scope);
            let negated = stated(disjunction, true);
            assert(negated matches FofFormulaView::Unary(h) && *h == disjunction);
        }
        g
    } else {
        joined
    };
    let f = quantify(
        store,
        FofQuantifier::Forall,
        vars.len(),
        body,
        Ghost(symbols@),
        Ghost(stated(disjunction, negate)),
        Ghost(scope),
    );
    proof {
        let whole = clause_formula(views, negate, scope);
        assert(whole matches FofFormulaView::Quantified(q, xs, g) && q == FofQuantifier::Forall
            && xs == scope && *g == stated(disjunction, negate));
        assert(Seq::<Seq<char>>::empty() + scope =~= scope);
        assert(formula_read(store@, symbols@, f, whole, Seq::empty()));
    }
    Ok(f)
}

/// What is to be done after a statement was taken.
#[derive(Clone, Copy, Debug, PartialEq, Eq, Structural)]
pub enum Step {
    /// The formula of the statement was loaded.
    Loaded,
    /// The statement names another file, whose statements come next.
    Include,
}

/// The formulae that were loaded, and how many of them were conjectures,
/// negated or not.
pub struct Loading {
    axioms: Vec<Id>,
    conjectures: usize,
}

/// A problem that was loaded: the goal to refute.
pub struct Loaded {
    pub goal: Id,
}

/// Whether `role` is the role of a conjecture, negated or not.
pub open spec fn is_conjecture(role: FormulaRole) -> bool {
    role == FormulaRole::Conjecture || role == FormulaRole::NegatedConjecture
}

impl Loading {
    /// The formulae that were loaded, in their order.
    pub closed spec fn axioms(&self) -> Seq<Id> {
        self.axioms@
    }

    /// The number of conjectures among them.
    pub closed spec fn conjectures(&self) -> nat {
        self.conjectures as nat
    }

    /// The invariant: the conjectures are among what was loaded.
    pub closed spec fn wf(&self) -> bool {
        self.conjectures <= self.axioms@.len()
    }

    /// Whether all that was loaded is a formula of the store.
    pub open spec fn within(&self, s: StoreView) -> bool {
        forall|k: int| 0 <= k < self.axioms().len() ==> self.axioms()[k] < s.formulae.len()
    }

    /// Nothing is loaded.
    pub fn new() -> (loading: Self)
        ensures
            loading.wf(),
            loading.axioms() == Seq::<Id>::empty(),
            loading.conjectures() == 0,
    {
        Loading { axioms: Vec::new(), conjectures: 0 }
    }

    /// Takes the formula `formula`, loaded from a statement with the role
    /// `role`.
    pub fn add_formula(&mut self, role: FormulaRole, formula: Id)
        requires
            old(self).wf(),
        ensures
            final(self).wf(),
            final(self).axioms() == old(self).axioms().push(formula),
            final(self).conjectures() == old(self).conjectures() + if is_conjecture(role) {
                1nat
            } else {
                0nat
            },
    {
        self.axioms.push(formula);
        let n = self.axioms.len();
        proof {
            assert(self.conjectures < n);
        }
        match role {
            FormulaRole::Conjecture => {
                self.conjectures = self.conjectures + 1;
            },
            FormulaRole::NegatedConjecture => {
                self.conjectures = self.conjectures + 1;
            },
            _ => {},
        }
    }

    /// The problem: the conjunction of all that was loaded. An input error
    /// unless exactly one conjecture was loaded.
    pub fn finish(self, store: &mut Store) -> (loaded: Result<Loaded, LoadError>)
        requires
            old(store).wf(),
            self.wf(),
            self.within(old(store)@),
        ensures
            final(store).wf(),
            final(store)@.extends(old(store)@),
            loaded is Ok <==> self.conjectures() == 1,
            loaded matches Ok(problem) ==> problem.goal < final(store)@.formulae.len() && (
            final(store)@.formulae[problem.goal as int] matches FormulaView::And(ps) && forall|
                x: Id,
            |
                ps.contains(x) <==> self.axioms().contains(x)),
            loaded matches Err(e) ==> e == LoadError::InputError,
    {
        if self.conjectures != 1 {
            return Err(LoadError::InputError);
        }
        let set = IdSet::from_vec(&self.axioms);
        proof {
            assert forall|k: int| 0 <= k < set@.len() implies set@[k] < store@.formulae.len() by {
                assert(set@.contains(set@[k]));
                assert(self.axioms@.contains(set@[k]));
                let j = choose|j: int| 0 <= j < self.axioms@.len() && self.axioms@[j] == set@[k];
                assert(self.axioms()[j] < store@.formulae.len());
            }
        }
        let goal = store.intern(Formula::And(set));
        Ok(Loaded { goal })
    }
}

/// Takes a statement of the problem: its formula or clause is loaded and
/// kept; the inclusion of a whole file is left to the caller, and the
/// inclusion of a selection is not supported.
pub fn load_statement(
    store: &mut Store,
    symbols: &mut Symbols,
    loading: &mut Loading,
    statement: &Statement,
) -> (step: Result<Step, LoadError>)
    requires
        old(store).wf(),
        old(symbols).wf(),
        old(loading).wf(),
        old(loading).within(old(store)@),
    ensures
        final(store).wf(),
        final(symbols).wf(),
        final(loading).wf(),
        final(loading).within(final(store)@),
        final(store)@.extends(old(store)@),
        grown(old(symbols)@, final(symbols)@),
        match statement {
            Statement::Fof(role, formula) => match step {
                Ok(step) => {
                    &&& step == Step::Loaded
                    &&& scoped(formula@, Seq::empty())
                    &&& negated_role(*role) is Some
                    &&& final(loading).axioms().len() == old(loading).axioms().len() + 1
                    &&& final(loading).axioms().drop_last() == old(loading).axioms()
                    &&& formula_read(
                        final(store)@,
                        final(symbols)@,
                        final(loading).axioms().last(),
                        stated(formula@, negated_role(*role).unwrap()),
                        Seq::empty(),
                    )
                    &&& final(loading).conjectures() == old(loading).conjectures()
                        + if is_conjecture(*role) {
                        1nat
                    } else {
                        0nat
                    }
                },
                Err(e) => e == LoadError::InputError && !(scoped(formula@, Seq::empty())
                    && negated_role(*role) is Some),
            },
            Statement::Cnf(role, literals) => match step {
                Ok(step) => {
                    &&& step == Step::Loaded
                    &&& negated_role(*role) is Some
                    &&& final(loading).axioms().len() == old(loading).axioms().len() + 1
                    &&& final(loading).axioms().drop_last() == old(loading).axioms()
                    &&& clause_read(
                        final(store)@,
                        final(symbols)@,
                        final(loading).axioms().last(),
                        literal_views(literals),
                        negated_role(*role).unwrap(),
                    )
                    &&& final(loading).conjectures() == old(loading).conjectures()
                        + if is_conjecture(*role) {
                        1nat
                    } else {
                        0nat
                    }
                },
                Err(e) => e == LoadError::InputError && negated_role(*role) is None,
            },
            Statement::Include(selected) => {
                &&& step == if *selected {
                    Err::<Step, LoadError>(LoadError::Unsupported)
                } else {
                    Ok::<Step, LoadError>(Step::Include)
                }
                &&& final(loading).axioms() == old(loading).axioms()
                &&& final(loading).conjectures() == old(loading).conjectures()
                &&& final(store)@ == old(store)@
                &&& final(symbols)@ == old(symbols)@
            },
        },
{
    match statement {
        Statement::Fof(role, formula) => {
            match load_fof(store, symbols, *role, formula) {
                Ok(f) => {
                    let ghost before = loading.axioms();
                    loading.add_formula(*role, f);
                    proof {
                        assert(loading.axioms().drop_last() =~= before);
                        assert(formula_read(
                            store@,
                            symbols@,
                            f,
                            stated(formula@, negated_role(*role).unwrap()),
                            Seq::empty(),
                        ));
                    }
                    Ok(Step::Loaded)
                },
                Err(e) => Err(e),
            }
        },
        Statement::Cnf(role, literals) => {
            match load_cnf(store, symbols, *role, literals) {
                Ok(f) => {
                    let ghost before = loading.axioms();
                    proof {
                        let vars = choose|vars: Seq<Seq<char>>|
                            is_variables(vars, literal_views(literals)) && formula_read(
                                store@,
                                symbols@,
                                f,
                                #[trigger] clause_formula(
                                    literal_views(literals),
                                    negated_role(*role).unwrap(),
                                    vars,
                                ),
                                Seq::empty(),
                            );
                        assert(f < store@.formulae.len());
                    }
                    loading.add_formula(*role, f);
                    proof {
                        assert(loading.axioms().drop_last() =~= before);
                    }
                    Ok(Step::Loaded)
                },
                Err(e) => Err(e),
            }
        },
        Statement::Include(selected) => {
            if *selected {
                Err(LoadError::Unsupported)
            } else {
                Ok(Step::Include)
            }
        },
    }
}

/// The name as text.
pub fn load_fof_name(name: Name) -> (text: String)
    ensures
        text@ == match name {
            Name::Atomic(x) => x@,
            Name::Integer(x) => x@,
        },
{
    match name {
        Name::Atomic(x) => x,
        Name::Integer(x) => x,
    }
}

/// The atom as a formula.
pub fn atom_to_fof(atom: Atom) -> (formula: FofFormula)
    ensures
        formula@ == atom_formula(atom@),
{
    match atom {
        Atom::Boolean(b) => FofFormula::Boolean(b),
        Atom::Infix(op, left, right) => FofFormula::Infix(op, left, right),
        Atom::Predicate(p, ts) => FofFormula::Predicate(p, ts),
    }
}

/// The literal as a formula: its atom, or the negation of its atom.
pub fn cnf_literal_to_fof(literal: CnfLiteral) -> (formula: FofFormula)
    ensures
        formula@ == literal_formula(literal@),
{
    match literal {
        CnfLiteral::Literal(atom) => atom_to_fof(atom),
        CnfLiteral::NegatedLiteral(atom) => {
            let inner = atom_to_fof(atom);
            let formula = FofFormula::Unary(Box::new(inner));
            proof {
                assert(formula@ matches FofFormulaView::Unary(g) && *g == atom_formula(atom@));
            }
            formula
        },
    }
}

/// Why a problem could not be loaded, where reading its file went wrong:
/// the system's fault where the file could not be read, not supported where
/// the dialect is none that is, and else a fault of the input.
pub fn convert_error(error: ReadError) -> (why: LoadError)
    ensures
        why == match error {
            ReadError::System => LoadError::OSError,
            ReadError::UnsupportedDialect => LoadError::Unsupported,
            _ => LoadError::InputError,
        },
{
    match error {
        ReadError::System => LoadError::OSError,
        ReadError::Lexical => LoadError::InputError,
        ReadError::UnsupportedDialect => LoadError::Unsupported,
        ReadError::Syntactic => LoadError::InputError,
        ReadError::Include => LoadError::InputError,
    }
}

} // verus!
