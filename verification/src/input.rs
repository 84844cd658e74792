//! Loading a problem: from statements as they are written to formulae of
//! the store.
//!
//! A name with a number of arguments gets its symbol from the table of
//! names. A variable becomes the number of quantifiers between it and the
//! quantifier that binds it; where several quantifiers around it bind its
//! name, the innermost one does.

use crate::collections::{Id, IdList, IdSet};
use crate::deduction::making::pair;
use crate::formula::{Formula, FormulaView};
use crate::names::{grown, symbol_for, Symbols};
use crate::simplification::propositional::pair_of;
use crate::smtlib2::Names;
use crate::store::{Store, StoreView};
use crate::substitution::held;
use crate::symbol::Symbol;
use crate::syntax::{
    formula_views, name_views, term_views, AssocConnective, FofFormula, FofFormulaView,
    FofQuantifier, FofTerm, FofTermView, InfixEquality, NonAssocConnective,
};
use crate::term::{Term, TermView};
use vstd::prelude::*;

verus! {

/// Why a problem could not be loaded.
#[derive(Clone, Copy, Debug, PartialEq, Eq, Structural)]
pub enum LoadError {
    OSError,
    InputError,
    Unsupported,
}

/// The place of the last of the names `bound` that is `x`, or `-1` if none
/// is.
pub open spec fn position(bound: Seq<Seq<char>>, x: Seq<char>) -> int
    decreases bound.len(),
{
    if bound.len() == 0 {
        -1
    } else if bound.last() == x {
        bound.len() - 1
    } else {
        position(bound.drop_last(), x)
    }
}

/// The place of a name is a place where it stands, and there is one if the
/// name is among the names at all.
pub proof fn lemma_position(bound: Seq<Seq<char>>, x: Seq<char>)
    ensures
        -1 <= position(bound, x) < bound.len(),
        position(bound, x) >= 0 ==> bound[position(bound, x)] == x,
        position(bound, x) >= 0 <==> bound.contains(x),
    decreases bound.len(),
{
    if bound.len() > 0 {
        if bound.last() == x {
            assert(bound[bound.len() - 1] == x);
        } else {
            let rest = bound.drop_last();
            lemma_position(rest, x);
            if position(rest, x) >= 0 {
                assert(bound[position(rest, x)] == x);
            }
            if bound.contains(x) {
                let i = choose|i: int| 0 <= i < bound.len() && bound[i] == x;
                assert(rest[i] == x);
            }
        }
    }
}

/// Whether `symbol` is the symbol of the name `name` with `arity`
/// arguments.
pub open spec fn is_symbol(names: Names, symbol: Symbol, name: Seq<char>, arity: nat) -> bool {
    match symbol {
        Symbol::Original(i) => i < names.len() && names[i as int].0 == name && names[i as int].1
            == arity,
        Symbol::Introduced(_) => false,
    }
}

/// Whether every variable of the written term is one of the names `bound`.
pub open spec fn term_scoped(term: FofTermView, bound: Seq<Seq<char>>) -> bool
    decreases term,
{
    match term {
        FofTermView::Variable(x) => bound.contains(x),
        FofTermView::Functor(_, ts) => forall|k: int|
            0 <= k < ts.len() ==> term_scoped(#[trigger] ts[k], bound),
    }
}

/// Whether the term `t` of the store is what is written as `term` below
/// the quantifiers that bind the names `bound`, innermost last.
pub open spec fn term_read(
    s: StoreView,
    names: Names,
    t: Id,
    term: FofTermView,
    bound: Seq<Seq<char>>,
) -> bool
    decreases term,
{
    t < s.terms.len() && match term {
        FofTermView::Variable(x) => bound.contains(x) && s.terms[t as int] == TermView::Var(
            (bound.len() - 1 - position(bound, x)) as usize,
        ),
        FofTermView::Functor(f, arguments) => match s.terms[t as int] {
            TermView::Fn(symbol, ts) => is_symbol(names, symbol, f, arguments.len())
                && terms_read(s, names, ts, arguments, bound),
            _ => false,
        },
    }
}

/// Whether the terms `ts` of the store are what is written as `terms`, one
/// for one.
pub open spec fn terms_read(
    s: StoreView,
    names: Names,
    ts: Seq<Id>,
    terms: Seq<FofTermView>,
    bound: Seq<Seq<char>>,
) -> bool
    decreases terms,
{
    ts.len() == terms.len() && forall|k: int|
        0 <= k < terms.len() ==> term_read(s, names, ts[k], #[trigger] terms[k], bound)
}

/// What a term was read as it is still read as when the store and the
/// table of names have grown.
pub proof fn lemma_term_read_kept(
    s: StoreView,
    names: Names,
    s2: StoreView,
    names2: Names,
    t: Id,
    term: FofTermView,
    bound: Seq<Seq<char>>,
)
    requires
        s2.extends(s),
        grown(names, names2),
        term_read(s, names, t, term, bound),
    ensures
        term_read(s2, names2, t, term, bound),
    decreases term,
{
    match term {
        FofTermView::Variable(_) => {},
        FofTermView::Functor(f, arguments) => {
            match s.terms[t as int] {
                TermView::Fn(symbol, ts) => {
                    lemma_terms_read_kept(s, names, s2, names2, ts, arguments, bound);
                },
                _ => {},
            }
        },
    }
}

/// What terms were read as they are still read as when the store and the
/// table of names have grown.
pub proof fn lemma_terms_read_kept(
    s: StoreView,
    names: Names,
    s2: StoreView,
    names2: Names,
    ts: Seq<Id>,
    terms: Seq<FofTermView>,
    bound: Seq<Seq<char>>,
)
    requires
        s2.extends(s),
        grown(names, names2),
        terms_read(s, names, ts, terms, bound),
    ensures
        terms_read(s2, names2, ts, terms, bound),
    decreases terms,
{
    assert forall|k: int| 0 <= k < terms.len() implies term_read(
        s2,
        names2,
        ts[k],
        #[trigger] terms[k],
        bound,
    ) by {
        lemma_term_read_kept(s, names, s2, names2, ts[k], terms[k], bound);
    }
}

/// The place of the last of the names `bound` that is `x`.
fn find(bound: &Vec<String>, x: &String) -> (place: Option<usize>)
    ensures
        match place {
            Some(p) => p == position(name_views(bound), x@),
            None => !name_views(bound).contains(x@),
        },
{
    let ghost all = name_views(bound);
    let mut i: usize = bound.len();
    proof {
        assert(all.take(i as int) =~= all);
    }
    while i > 0
        invariant
            i <= bound.len(),
            all == name_views(bound),
            position(all, x@) == position(all.take(i as int), x@),
        decreases i,
    {
        proof {
            assert(all.take(i as int).last() == bound[i - 1]@);
            assert(all.take(i as int).drop_last() =~= all.take(i - 1));
        }
        if bound[i - 1] == *x {
            return Some(i - 1);
        }
        i -= 1;
    }
    proof {
        lemma_position(all, x@);
    }
    None
}

/// The terms of the store for the written terms `terms`, if their
/// variables are bound.
pub(crate) fn load_terms(store: &mut Store, symbols: &mut Symbols, terms: &Vec<FofTerm>, bound: &Vec<String>) -> (loaded:
    Result<Vec<Id>, LoadError>)
    requires
        old(store).wf(),
        old(symbols).wf(),
    ensures
        final(store).wf(),
        final(symbols).wf(),
        final(store)@.extends(old(store)@),
        grown(old(symbols)@, final(symbols)@),
        loaded is Ok <==> forall|k: int|
            0 <= k < terms@.len() ==> term_scoped(#[trigger] term_views(terms)[k], name_views(bound)),
        loaded matches Ok(ts) ==> terms_read(
            final(store)@,
            final(symbols)@,
            ts@,
            term_views(terms),
            name_views(bound),
        ),
        loaded matches Err(e) ==> e == LoadError::InputError,
    decreases terms,
{
    let ghost views = term_views(terms);
    let ghost scope = name_views(bound);
    let mut ts: Vec<Id> = Vec::new();
    let n = terms.len();
    let mut i: usize = 0;
    while i < n
        invariant
            n == terms@.len(),
            i <= n,
            views == term_views(terms),
            scope == name_views(bound),
            store.wf(),
            symbols.wf(),
            store@.extends(old(store)@),
            grown(old(symbols)@, symbols@),
            forall|k: int| 0 <= k < i ==> term_scoped(#[trigger] views[k], scope),
            terms_read(store@, symbols@, ts@, views.take(i as int), scope),
        decreases n - i,
    {
        let ghost s1 = store@;
        let ghost names1 = symbols@;
        let ghost listed = ts@;
        match load_term(store, symbols, &terms[i], bound) {
            Ok(t) => {
                ts.push(t);
                proof {
                    lemma_terms_read_kept(
                        s1,
                        names1,
                        store@,
                        symbols@,
                        listed,
                        views.take(i as int),
                        scope,
                    );
                    assert forall|k: int| 0 <= k < i + 1 implies term_read(
                        store@,
                        symbols@,
                        ts@[k],
                        #[trigger] views.take(i + 1)[k],
                        scope,
                    ) by {
                        if k < i {
                            assert(views.take(i as int)[k] == views[k]);
                            assert(ts@[k] == listed[k]);
                        } else {
                            assert(views[i as int] == terms[i as int]@);
                        }
                    }
                }
            },
            Err(e) => {
                proof {
                    assert(views[i as int] == terms[i as int]@);
                    assert(!term_scoped(views[i as int], scope));
                }
                return Err(e);
            },
        }
        i += 1;
    }
    proof {
        assert(views.take(n as int) =~= views);
    }
    Ok(ts)
}

/// The term of the store for the written term `term` below the quantifiers
/// that bind the names `bound`, innermost last; an input error if a
/// variable of the term is not bound.
pub fn load_term(store: &mut Store, symbols: &mut Symbols, term: &FofTerm, bound: &Vec<String>) -> (loaded:
    Result<Id, LoadError>)
    requires
        old(store).wf(),
        old(symbols).wf(),
    ensures
        final(store).wf(),
        final(symbols).wf(),
        final(store)@.extends(old(store)@),
        grown(old(symbols)@, final(symbols)@),
        loaded is Ok <==> term_scoped(term@, name_views(bound)),
        loaded matches Ok(t) ==> term_read(
            final(store)@,
            final(symbols)@,
            t,
            term@,
            name_views(bound),
        ),
        loaded matches Err(e) ==> e == LoadError::InputError,
    decreases term,
{
    match term {
        FofTerm::Variable(x) => {
            proof {
                assert(term@ == FofTermView::Variable(x@));
            }
            match find(bound, x) {
                Some(place) => {
                    proof {
                        lemma_position(name_views(bound), x@);
                        assert(term_scoped(term@, name_views(bound)));
                    }
                    Ok(store.intern_term(Term::Var(bound.len() - 1 - place)))
                },
                None => {
                    proof {
                        assert(!term_scoped(term@, name_views(bound)));
                    }
                    Err(LoadError::InputError)
                },
            }
        },
        FofTerm::Functor(f, arguments) => {
            proof {
                assert(term@ == FofTermView::Functor(f@, term_views(arguments)));
            }
            match load_terms(store, symbols, arguments, bound) {
                Ok(ts) => {
                    let ghost s1 = store@;
                    let ghost names1 = symbols@;
                    let symbol = symbol_for(symbols, f.as_str(), arguments.len());
                    let list = IdList::from_vec(&ts);
                    proof {
                        assert forall|k: int| 0 <= k < list@.len() implies list@[k]
                            < store@.terms.len() by {
                            assert(term_read(
                                s1,
                                names1,
                                ts@[k],
                                term_views(arguments)[k],
                                name_views(bound),
                            ));
                        }
                    }
                    let t = store.intern_term(Term::Fn(symbol, list));
                    proof {
                        lemma_terms_read_kept(
                            s1,
                            names1,
                            store@,
                            symbols@,
                            ts@,
                            term_views(arguments),
                            name_views(bound),
                        );
                    }
                    proof {
                        assert(term_scoped(term@, name_views(bound)));
                    }
                    Ok(t)
                },
                Err(e) => {
                    proof {
                        let views = term_views(arguments);
                        assert(views.len() == arguments@.len());
                        let k = choose|k: int|
                            0 <= k < arguments@.len() && !term_scoped(
                                #[trigger] views[k],
                                name_views(bound),
                            );
                        assert(!term_scoped(views[k], name_views(bound)));
                        assert(term@ matches FofTermView::Functor(_, ts) && ts == views);
                        assert(!term_scoped(term@, name_views(bound)));
                    }
                    Err(e)
                },
            }
        },
    }
}

/// Whether every variable of the written formula is bound in it or is one
/// of the names `bound`.
pub open spec fn scoped(formula: FofFormulaView, bound: Seq<Seq<char>>) -> bool
    decreases formula,
{
    match formula {
        FofFormulaView::Boolean(_) => true,
        FofFormulaView::Infix(_, left, right) => term_scoped(left, bound) && term_scoped(
            right,
            bound,
        ),
        FofFormulaView::Predicate(_, ts) => forall|k: int|
            0 <= k < ts.len() ==> term_scoped(#[trigger] ts[k], bound),
        FofFormulaView::Unary(f) => scoped(*f, bound),
        FofFormulaView::NonAssoc(_, left, right) => scoped(*left, bound) && scoped(*right, bound),
        FofFormulaView::Assoc(_, fs) => forall|k: int|
            0 <= k < fs.len() ==> scoped(#[trigger] fs[k], bound),
        FofFormulaView::Quantified(_, xs, f) => scoped(*f, bound + xs),
    }
}

/// The terms of the equation that the formula `f` states or denies, as `op`
/// says.
pub open spec fn equated(s: StoreView, f: Id, op: InfixEquality) -> Option<Seq<Id>> {
    match op {
        InfixEquality::Equal => match s.formulae[f as int] {
            FormulaView::Eq(ts) => Some(ts),
            _ => None,
        },
        InfixEquality::NotEqual => match s.formulae[f as int] {
            FormulaView::Not(e) => if e < s.formulae.len() {
                match s.formulae[e as int] {
                    FormulaView::Eq(ts) => Some(ts),
                    _ => None,
                }
            } else {
                None
            },
            _ => None,
        },
    }
}

/// The members of the equivalence, disjunction or conjunction that the
/// formula `f` states or denies, as `op` says.
pub open spec fn connected(s: StoreView, f: Id, op: NonAssocConnective) -> Option<Seq<Id>> {
    match op {
        NonAssocConnective::Equivalent => match s.formulae[f as int] {
            FormulaView::Eqv(ps) => Some(ps),
            _ => None,
        },
        NonAssocConnective::LRImplies => None,
        NonAssocConnective::RLImplies => None,
        _ => match s.formulae[f as int] {
            FormulaView::Not(e) => if e < s.formulae.len() {
                match s.formulae[e as int] {
                    FormulaView::Eqv(ps) => if op == NonAssocConnective::NotEquivalent {
                        Some(ps)
                    } else {
                        None
                    },
                    FormulaView::Or(ps) => if op == NonAssocConnective::NotOr {
                        Some(ps)
                    } else {
                        None
                    },
                    FormulaView::And(ps) => if op == NonAssocConnective::NotAnd {
                        Some(ps)
                    } else {
                        None
                    },
                    _ => None,
                }
            } else {
                None
            },
            _ => None,
        },
    }
}

/// The members of the disjunction or conjunction `f`, as `op` says.
pub open spec fn joined_by(s: StoreView, f: Id, op: AssocConnective) -> Option<Seq<Id>> {
    match s.formulae[f as int] {
        FormulaView::Or(ps) => if op == AssocConnective::Or {
            Some(ps)
        } else {
            None
        },
        FormulaView::And(ps) => if op == AssocConnective::And {
            Some(ps)
        } else {
            None
        },
        _ => None,
    }
}

/// The body of the quantified formula `f`, if its quantifier is `q`.
pub open spec fn body_of(s: StoreView, f: Id, q: FofQuantifier) -> Option<Id> {
    match s.formulae[f as int] {
        FormulaView::All(p) => if q == FofQuantifier::Forall {
            Some(p)
        } else {
            None
        },
        FormulaView::Ex(p) => if q == FofQuantifier::Exists {
            Some(p)
        } else {
            None
        },
        _ => None,
    }
}

/// Whether `ps` is the set of the two identifiers at its ends.
pub open spec fn is_pair(ps: Seq<Id>) -> bool {
    ps.len() >= 1 && ps == pair_of(ps[0], ps.last())
}

/// Whether the formula `f` of the store is what is written as `formula`
/// below the quantifiers that bind the names `bound`, innermost last.
///
/// A quantifier of several variables is one quantifier for each, the
/// first outermost. The two sides of an equation or an equivalence, and
/// the members of a disjunction or a conjunction, are a set: their order
/// and number are not kept.
pub open spec fn formula_read(
    s: StoreView,
    names: Names,
    f: Id,
    formula: FofFormulaView,
    bound: Seq<Seq<char>>,
) -> bool
    decreases formula, 0nat,
{
    f < s.formulae.len() && match formula {
        FofFormulaView::Boolean(b) => s.formulae[f as int] == if b {
            FormulaView::T
        } else {
            FormulaView::F
        },
        FofFormulaView::Infix(op, left, right) => match equated(s, f, op) {
            Some(ts) => is_pair(ts) && ((term_read(s, names, ts[0], left, bound) && term_read(
                s,
                names,
                ts.last(),
                right,
                bound,
            )) || (term_read(s, names, ts[0], right, bound) && term_read(
                s,
                names,
                ts.last(),
                left,
                bound,
            ))),
            None => false,
        },
        FofFormulaView::Predicate(p, arguments) => match s.formulae[f as int] {
            FormulaView::Prd(symbol, ts) => is_symbol(names, symbol, p, arguments.len())
                && terms_read(s, names, ts, arguments, bound),
            _ => false,
        },
        FofFormulaView::Unary(g) => match s.formulae[f as int] {
            FormulaView::Not(p) => formula_read(s, names, p, *g, bound),
            _ => false,
        },
        FofFormulaView::NonAssoc(op, left, right) => match s.formulae[f as int] {
            FormulaView::Imp(p, q) => (op == NonAssocConnective::LRImplies && formula_read(
                s,
                names,
                p,
                *left,
                bound,
            ) && formula_read(s, names, q, *right, bound)) || (op == NonAssocConnective::RLImplies
                && formula_read(s, names, p, *right, bound) && formula_read(
                s,
                names,
                q,
                *left,
                bound,
            )),
            _ => match connected(s, f, op) {
                Some(ps) => is_pair(ps) && ((formula_read(s, names, ps[0], *left, bound)
                    && formula_read(s, names, ps.last(), *right, bound)) || (formula_read(
                    s,
                    names,
                    ps[0],
                    *right,
                    bound,
                ) && formula_read(s, names, ps.last(), *left, bound))),
                None => false,
            },
        },
        FofFormulaView::Assoc(op, fs) => match joined_by(s, f, op) {
            Some(ps) => members_read(s, names, ps, fs, bound),
            None => false,
        },
        FofFormulaView::Quantified(q, xs, g) => quantified_read(
            s,
            names,
            f,
            q,
            xs.len(),
            *g,
            bound + xs,
        ),
    }
}

/// Whether the written formula `formula` is read as one of the formulae
/// `ps` of the store.
pub open spec fn read_among(
    s: StoreView,
    names: Names,
    ps: Seq<Id>,
    formula: FofFormulaView,
    bound: Seq<Seq<char>>,
) -> bool
    decreases formula, 1nat,
{
    exists|z: Id| #[trigger] ps.contains(z) && formula_read(s, names, z, formula, bound)
}

/// Whether the formula `z` of the store is what one of the written
/// formulae `fs` is read as.
pub open spec fn read_from(
    s: StoreView,
    names: Names,
    z: Id,
    fs: Seq<FofFormulaView>,
    bound: Seq<Seq<char>>,
) -> bool
    decreases fs, 0nat,
{
    exists|k: int| 0 <= k < fs.len() && formula_read(s, names, z, #[trigger] fs[k], bound)
}

/// Whether each of the written formulae `fs` is read as one of the
/// formulae `ps` of the store, and each of `ps` is what one of `fs` is
/// read as.
pub open spec fn members_read(
    s: StoreView,
    names: Names,
    ps: Seq<Id>,
    fs: Seq<FofFormulaView>,
    bound: Seq<Seq<char>>,
) -> bool
    decreases fs, 1nat,
{
    &&& forall|k: int| 0 <= k < fs.len() ==> read_among(s, names, ps, #[trigger] fs[k], bound)
    &&& forall|z: Id| #[trigger] held(ps, z) ==> read_from(s, names, z, fs, bound)
}

/// Whether the formula `f` of the store is what is written as `body` below
/// `n` quantifiers `q`.
pub open spec fn quantified_read(
    s: StoreView,
    names: Names,
    f: Id,
    q: FofQuantifier,
    n: nat,
    body: FofFormulaView,
    bound: Seq<Seq<char>>,
) -> bool
    decreases body, n + 1,
{
    if n == 0 {
        formula_read(s, names, f, body, bound)
    } else {
        f < s.formulae.len() && match body_of(s, f, q) {
            Some(p) => quantified_read(s, names, p, q, (n - 1) as nat, body, bound),
            None => false,
        }
    }
}

/// What a formula was read as it is still read as when the store and the
/// table of names have grown.
pub proof fn lemma_formula_read_kept(
    s: StoreView,
    names: Names,
    s2: StoreView,
    names2: Names,
    f: Id,
    formula: FofFormulaView,
    bound: Seq<Seq<char>>,
)
    requires
        s.wf(),
        s2.extends(s),
        grown(names, names2),
        formula_read(s, names, f, formula, bound),
    ensures
        formula_read(s2, names2, f, formula, bound),
    decreases formula, 0nat,
{
    assert(s.formula_ok(s.formulae[f as int], f as int));
    match formula {
        FofFormulaView::Boolean(_) => {},
        FofFormulaView::Infix(op, left, right) => {
            match s.formulae[f as int] {
                FormulaView::Not(e) => {
                    assert(s2.formulae[e as int] == s.formulae[e as int]);
                },
                _ => {},
            }
            let ts = equated(s, f, op).unwrap();
            assert(equated(s2, f, op) == Some(ts));
            if term_read(s, names, ts[0], left, bound) && term_read(
                s,
                names,
                ts.last(),
                right,
                bound,
            ) {
                lemma_term_read_kept(s, names, s2, names2, ts[0], left, bound);
                lemma_term_read_kept(s, names, s2, names2, ts.last(), right, bound);
            } else {
                lemma_term_read_kept(s, names, s2, names2, ts[0], right, bound);
                lemma_term_read_kept(s, names, s2, names2, ts.last(), left, bound);
            }
        },
        FofFormulaView::Predicate(p, arguments) => {
            match s.formulae[f as int] {
                FormulaView::Prd(symbol, ts) => {
                    lemma_terms_read_kept(s, names, s2, names2, ts, arguments, bound);
                },
                _ => {},
            }
        },
        FofFormulaView::Unary(g) => {
            match s.formulae[f as int] {
                FormulaView::Not(p) => {
                    lemma_formula_read_kept(s, names, s2, names2, p, *g, bound);
                },
                _ => {},
            }
        },
        FofFormulaView::NonAssoc(op, left, right) => {
            match s.formulae[f as int] {
                FormulaView::Imp(p, q) => {
                    if op == NonAssocConnective::LRImplies {
                        lemma_formula_read_kept(s, names, s2, names2, p, *left, bound);
                        lemma_formula_read_kept(s, names, s2, names2, q, *right, bound);
                    } else {
                        lemma_formula_read_kept(s, names, s2, names2, p, *right, bound);
                        lemma_formula_read_kept(s, names, s2, names2, q, *left, bound);
                    }
                },
                _ => {
                    match s.formulae[f as int] {
                        FormulaView::Not(e) => {
                            assert(s2.formulae[e as int] == s.formulae[e as int]);
                        },
                        _ => {},
                    }
                    let ps = connected(s, f, op).unwrap();
                    assert(connected(s2, f, op) == Some(ps));
                    if formula_read(s, names, ps[0], *left, bound) && formula_read(
                        s,
                        names,
                        ps.last(),
                        *right,
                        bound,
                    ) {
                        lemma_formula_read_kept(s, names, s2, names2, ps[0], *left, bound);
                        lemma_formula_read_kept(s, names, s2, names2, ps.last(), *right, bound);
                    } else {
                        lemma_formula_read_kept(s, names, s2, names2, ps[0], *right, bound);
                        lemma_formula_read_kept(s, names, s2, names2, ps.last(), *left, bound);
                    }
                },
            }
        },
        FofFormulaView::Assoc(op, fs) => {
            let ps = joined_by(s, f, op).unwrap();
            assert(joined_by(s2, f, op) == Some(ps));
            lemma_members_read_kept(s, names, s2, names2, ps, fs, bound);
        },
        FofFormulaView::Quantified(q, xs, g) => {
            lemma_quantified_read_kept(s, names, s2, names2, f, q, xs.len(), *g, bound + xs);
        },
    }
}

/// What members were read as they are still read as when the store and
/// the table of names have grown.
pub proof fn lemma_members_read_kept(
    s: StoreView,
    names: Names,
    s2: StoreView,
    names2: Names,
    ps: Seq<Id>,
    fs: Seq<FofFormulaView>,
    bound: Seq<Seq<char>>,
)
    requires
        s.wf(),
        s2.extends(s),
        grown(names, names2),
        members_read(s, names, ps, fs, bound),
    ensures
        members_read(s2, names2, ps, fs, bound),
    decreases fs, 1nat,
{
    assert forall|k: int| 0 <= k < fs.len() implies read_among(
        s2,
        names2,
        ps,
        #[trigger] fs[k],
        bound,
    ) by {
        assert(read_among(s, names, ps, fs[k], bound));
        let z = choose|z: Id| #[trigger]
            ps.contains(z) && formula_read(s, names, z, fs[k], bound);
        lemma_formula_read_kept(s, names, s2, names2, z, fs[k], bound);
    }
    assert forall|z: Id| #[trigger] held(ps, z) implies read_from(s2, names2, z, fs, bound) by {
        assert(read_from(s, names, z, fs, bound));
        let k = choose|k: int|
            0 <= k < fs.len() && formula_read(s, names, z, #[trigger] fs[k], bound);
        lemma_formula_read_kept(s, names, s2, names2, z, fs[k], bound);
    }
}

/// What a quantified formula was read as it is still read as when the
/// store and the table of names have grown.
pub proof fn lemma_quantified_read_kept(
    s: StoreView,
    names: Names,
    s2: StoreView,
    names2: Names,
    f: Id,
    q: FofQuantifier,
    n: nat,
    body: FofFormulaView,
    bound: Seq<Seq<char>>,
)
    requires
        s.wf(),
        s2.extends(s),
        grown(names, names2),
        quantified_read(s, names, f, q, n, body, bound),
    ensures
        quantified_read(s2, names2, f, q, n, body, bound),
    decreases body, n + 1,
{
    if n == 0 {
        lemma_formula_read_kept(s, names, s2, names2, f, body, bound);
    } else {
        let p = body_of(s, f, q).unwrap();
        assert(body_of(s2, f, q) == Some(p));
        lemma_quantified_read_kept(s, names, s2, names2, p, q, (n - 1) as nat, body, bound);
    }
}

/// The names `bound` followed by the names `xs`.
fn extended(bound: &Vec<String>, xs: &Vec<String>) -> (all: Vec<String>)
    ensures
        name_views(&all) == name_views(bound) + name_views(xs),
{
    let mut all: Vec<String> = Vec::new();
    let mut i: usize = 0;
    while i < bound.len()
        invariant
            i <= bound.len(),
            all@.len() == i,
            forall|k: int| 0 <= k < i ==> all@[k]@ == bound@[k]@,
        decreases bound.len() - i,
    {
        all.push(bound[i].clone());
        i += 1;
    }
    let mut j: usize = 0;
    while j < xs.len()
        invariant
            j <= xs.len(),
            all@.len() == bound@.len() + j,
            forall|k: int| 0 <= k < bound@.len() ==> all@[k]@ == bound@[k]@,
            forall|k: int| 0 <= k < j ==> all@[bound@.len() + k]@ == xs@[k]@,
        decreases xs.len() - j,
    {
        all.push(xs[j].clone());
        j += 1;
    }
    proof {
        assert(name_views(&all) =~= name_views(bound) + name_views(xs));
    }
    all
}

/// The formulae of the store for the written formulae `formulae`, if their
/// variables are bound.
fn load_formulae(
    store: &mut Store,
    symbols: &mut Symbols,
    formulae: &Vec<FofFormula>,
    bound: &Vec<String>,
) -> (loaded: Result<Vec<Id>, LoadError>)
    requires
        old(store).wf(),
        old(symbols).wf(),
    ensures
        final(store).wf(),
        final(symbols).wf(),
        final(store)@.extends(old(store)@),
        grown(old(symbols)@, final(symbols)@),
        loaded is Ok <==> forall|k: int|
            0 <= k < formulae@.len() ==> scoped(
                #[trigger] formula_views(formulae)[k],
                name_views(bound),
            ),
        loaded matches Ok(ps) ==> ps@.len() == formulae@.len() && forall|k: int|
            0 <= k < formulae@.len() ==> formula_read(
                final(store)@,
                final(symbols)@,
                #[trigger] ps@[k],
                formula_views(formulae)[k],
                name_views(bound),
            ),
        loaded matches Err(e) ==> e == LoadError::InputError,
    decreases formulae,
{
    let ghost views = formula_views(formulae);
    let ghost scope = name_views(bound);
    let mut ps: Vec<Id> = Vec::new();
    let n = formulae.len();
    let mut i: usize = 0;
    while i < n
        invariant
            n == formulae@.len(),
            i <= n,
            views == formula_views(formulae),
            scope == name_views(bound),
            store.wf(),
            symbols.wf(),
            store@.extends(old(store)@),
            grown(old(symbols)@, symbols@),
            forall|k: int| 0 <= k < i ==> scoped(#[trigger] views[k], scope),
            ps@.len() == i,
            forall|k: int|
                0 <= k < i ==> formula_read(store@, symbols@, #[trigger] ps@[k], views[k], scope),
        decreases n - i,
    {
        let ghost s1 = store@;
        let ghost names1 = symbols@;
        let ghost listed = ps@;
        match load_fof_formula(store, symbols, &formulae[i], bound) {
            Ok(f) => {
                ps.push(f);
                proof {
                    assert(views[i as int] == formulae[i as int]@);
                    assert forall|k: int| 0 <= k < i + 1 implies formula_read(
                        store@,
                        symbols@,
                        #[trigger] ps@[k],
                        views[k],
                        scope,
                    ) by {
                        if k < i {
                            assert(ps@[k] == listed[k]);
                            lemma_formula_read_kept(
                                s1,
                                names1,
                                store@,
                                symbols@,
                                listed[k],
                                views[k],
                                scope,
                            );
                        }
                    }
                }
            },
            Err(e) => {
                proof {
                    assert(views[i as int] == formulae[i as int]@);
                    assert(!scoped(views[i as int], scope));
                }
                return Err(e);
            },
        }
        i += 1;
    }
    Ok(ps)
}

/// The formula `body` below `n` quantifiers `q`.
pub(crate) fn quantify(
    store: &mut Store,
    q: FofQuantifier,
    n: usize,
    body: Id,
    Ghost(names): Ghost<Names>,
    Ghost(written): Ghost<FofFormulaView>,
    Ghost(scope): Ghost<Seq<Seq<char>>>,
) -> (f: Id)
    requires
        old(store).wf(),
        formula_read(old(store)@, names, body, written, scope),
    ensures
        final(store).wf(),
        final(store)@.extends(old(store)@),
        f < final(store)@.formulae.len(),
        quantified_read(final(store)@, names, f, q, n as nat, written, scope),
{
    let mut f = body;
    let mut i: usize = 0;
    while i < n
        invariant
            i <= n,
            store.wf(),
            store@.extends(old(store)@),
            f < store@.formulae.len(),
            quantified_read(store@, names, f, q, i as nat, written, scope),
        decreases n - i,
    {
        let ghost s1 = store@;
        let ghost inner = f;
        f = match q {
            FofQuantifier::Forall => store.intern(Formula::All(f)),
            FofQuantifier::Exists => store.intern(Formula::Ex(f)),
        };
        proof {
            lemma_quantified_read_kept(
                s1,
                names,
                store@,
                names,
                inner,
                q,
                i as nat,
                written,
                scope,
            );
            assert(body_of(store@, f, q) == Some(inner));
        }
        i += 1;
    }
    f
}

/// The set of the two formulae read as `left` and `right` is a pair that
/// is read as the two.
proof fn lemma_sides(a: Id, b: Id)
    ensures
        is_pair(pair_of(a, b)),
        (pair_of(a, b)[0] == a && pair_of(a, b).last() == b) || (pair_of(a, b)[0] == b && pair_of(
            a,
            b,
        ).last() == a),
        forall|k: int| 0 <= k < pair_of(a, b).len() ==> pair_of(a, b)[k] == a || pair_of(a, b)[k] == b,
{
    let ps = pair_of(a, b);
    assert(ps =~= pair_of(ps[0], ps.last()));
}

/// The formula of the store for the equation, or the denial of the
/// equation, of two written terms.
pub(crate) fn load_infix(
    store: &mut Store,
    symbols: &mut Symbols,
    op: InfixEquality,
    left: &FofTerm,
    right: &FofTerm,
    bound: &Vec<String>,
) -> (loaded: Result<Id, LoadError>)
    requires
        old(store).wf(),
        old(symbols).wf(),
    ensures
        final(store).wf(),
        final(symbols).wf(),
        final(store)@.extends(old(store)@),
        grown(old(symbols)@, final(symbols)@),
        loaded is Ok <==> term_scoped(left@, name_views(bound)) && term_scoped(
            right@,
            name_views(bound),
        ),
        loaded matches Ok(f) ==> formula_read(
            final(store)@,
            final(symbols)@,
            f,
            FofFormulaView::Infix(op, left@, right@),
            name_views(bound),
        ),
        loaded matches Err(e) ==> e == LoadError::InputError,
{
    let ghost scope = name_views(bound);
    let l = match load_term(store, symbols, left, bound) {
        Ok(l) => l,
        Err(e) => {
            return Err(e);
        },
    };
    let ghost s1 = store@;
    let ghost names1 = symbols@;
    let r = match load_term(store, symbols, right, bound) {
        Ok(r) => r,
        Err(e) => {
            return Err(e);
        },
    };
    let ghost s2 = store@;
    let ghost names2 = symbols@;
    proof {
        lemma_term_read_kept(s1, names1, s2, names2, l, left@, scope);
        lemma_sides(l, r);
    }
    let sides = pair(l, r);
    let equation = store.intern(Formula::Eq(sides));
    let ghost s3 = store@;
    proof {
        lemma_term_read_kept(s2, names2, s3, names2, l, left@, scope);
        lemma_term_read_kept(s2, names2, s3, names2, r, right@, scope);
        assert(equated(s3, equation, InfixEquality::Equal) == Some(pair_of(l, r)));
    }
    match op {
        InfixEquality::Equal => Ok(equation),
        InfixEquality::NotEqual => {
            let f = Formula::negate(store, equation);
            proof {
                lemma_term_read_kept(s3, names2, store@, names2, l, left@, scope);
                lemma_term_read_kept(s3, names2, store@, names2, r, right@, scope);
                assert(store@.formulae[equation as int] == s3.formulae[equation as int]);
                assert(equated(store@, f, InfixEquality::NotEqual) == Some(pair_of(l, r)));
            }
            Ok(f)
        },
    }
}

/// The formula of the store for the written atom of the predicate `p`.
pub(crate) fn load_predicate(
    store: &mut Store,
    symbols: &mut Symbols,
    p: &String,
    arguments: &Vec<FofTerm>,
    bound: &Vec<String>,
) -> (loaded: Result<Id, LoadError>)
    requires
        old(store).wf(),
        old(symbols).wf(),
    ensures
        final(store).wf(),
        final(symbols).wf(),
        final(store)@.extends(old(store)@),
        grown(old(symbols)@, final(symbols)@),
        loaded is Ok <==> scoped(
            FofFormulaView::Predicate(p@, term_views(arguments)),
            name_views(bound),
        ),
        loaded matches Ok(f) ==> formula_read(
            final(store)@,
            final(symbols)@,
            f,
            FofFormulaView::Predicate(p@, term_views(arguments)),
            name_views(bound),
        ),
        loaded matches Err(e) ==> e == LoadError::InputError,
{
    let ghost scope = name_views(bound);
    proof {
        let whole = FofFormulaView::Predicate(p@, term_views(arguments));
        assert(whole matches FofFormulaView::Predicate(_, ts) && ts == term_views(arguments));
    }
    match load_terms(store, symbols, arguments, bound) {
        Ok(ts) => {
            let ghost s1 = store@;
            let ghost names1 = symbols@;
            let symbol = symbol_for(symbols, p.as_str(), arguments.len());
            let list = IdList::from_vec(&ts);
            proof {
                assert forall|k: int| 0 <= k < list@.len() implies list@[k]
                    < store@.terms.len() by {
                    assert(term_read(s1, names1, ts@[k], term_views(arguments)[k], scope));
                }
            }
            let f = store.intern(Formula::Prd(symbol, list));
            proof {
                lemma_terms_read_kept(
                    s1,
                    names1,
                    store@,
                    symbols@,
                    ts@,
                    term_views(arguments),
                    scope,
                );
            }
            Ok(f)
        },
        Err(e) => {
            proof {
                let views = term_views(arguments);
                let k = choose|k: int|
                    0 <= k < arguments@.len() && !term_scoped(#[trigger] views[k], scope);
                assert(!term_scoped(views[k], scope));
            }
            Err(e)
        },
    }
}

/// The formula of the store that connects the formulae `l` and `r` as `op`
/// says.
fn connect(
    store: &mut Store,
    op: NonAssocConnective,
    l: Id,
    r: Id,
    Ghost(names): Ghost<Names>,
    Ghost(left): Ghost<FofFormulaView>,
    Ghost(right): Ghost<FofFormulaView>,
    Ghost(scope): Ghost<Seq<Seq<char>>>,
) -> (f: Id)
    requires
        old(store).wf(),
        formula_read(old(store)@, names, l, left, scope),
        formula_read(old(store)@, names, r, right, scope),
    ensures
        final(store).wf(),
        final(store)@.extends(old(store)@),
        formula_read(
            final(store)@,
            names,
            f,
            FofFormulaView::NonAssoc(op, Box::new(left), Box::new(right)),
            scope,
        ),
{
    let ghost s2 = store@;
    proof {
        lemma_sides(l, r);
    }
    let inner = match op {
        NonAssocConnective::LRImplies => store.intern(Formula::Imp(l, r)),
        NonAssocConnective::RLImplies => store.intern(Formula::Imp(r, l)),
        NonAssocConnective::Equivalent => store.intern(Formula::Eqv(pair(l, r))),
        NonAssocConnective::NotEquivalent => store.intern(Formula::Eqv(pair(l, r))),
        NonAssocConnective::NotOr => store.intern(Formula::Or(pair(l, r))),
        NonAssocConnective::NotAnd => store.intern(Formula::And(pair(l, r))),
    };
    let ghost s3 = store@;
    proof {
        lemma_formula_read_kept(s2, names, s3, names, l, left, scope);
        lemma_formula_read_kept(s2, names, s3, names, r, right, scope);
    }
    match op {
        NonAssocConnective::LRImplies => inner,
        NonAssocConnective::RLImplies => inner,
        NonAssocConnective::Equivalent => {
            proof {
                assert(connected(s3, inner, op) == Some(pair_of(l, r)));
            }
            inner
        },
        _ => {
            let f = Formula::negate(store, inner);
            proof {
                lemma_formula_read_kept(s3, names, store@, names, l, left, scope);
                lemma_formula_read_kept(s3, names, store@, names, r, right, scope);
                assert(store@.formulae[inner as int] == s3.formulae[inner as int]);
                assert(connected(store@, f, op) == Some(pair_of(l, r)));
            }
            f
        },
    }
}

/// The disjunction or conjunction of the formulae `ps`, as `op` says.
pub(crate) fn join(
    store: &mut Store,
    op: AssocConnective,
    ps: &Vec<Id>,
    Ghost(names): Ghost<Names>,
    Ghost(views): Ghost<Seq<FofFormulaView>>,
    Ghost(scope): Ghost<Seq<Seq<char>>>,
) -> (f: Id)
    requires
        old(store).wf(),
        ps@.len() == views.len(),
        forall|k: int|
            0 <= k < views.len() ==> formula_read(
                old(store)@,
                names,
                #[trigger] ps@[k],
                views[k],
                scope,
            ),
    ensures
        final(store).wf(),
        final(store)@.extends(old(store)@),
        formula_read(final(store)@, names, f, FofFormulaView::Assoc(op, views), scope),
{
    let ghost s1 = store@;
    let set = IdSet::from_vec(ps);
    proof {
        assert forall|k: int| 0 <= k < set@.len() implies set@[k] < s1.formulae.len() by {
            assert(set@.contains(set@[k]));
            assert(ps@.contains(set@[k]));
            let j = choose|j: int| 0 <= j < ps@.len() && ps@[j] == set@[k];
            assert(formula_read(s1, names, ps@[j], views[j], scope));
        }
    }
    let ghost members = set@;
    let f = match op {
        AssocConnective::Or => store.intern(Formula::Or(set)),
        AssocConnective::And => store.intern(Formula::And(set)),
    };
    proof {
        let s2 = store@;
        assert(joined_by(s2, f, op) == Some(members));
        assert forall|k: int| 0 <= k < views.len() implies read_among(
            s2,
            names,
            members,
            #[trigger] views[k],
            scope,
        ) by {
            lemma_formula_read_kept(s1, names, s2, names, ps@[k], views[k], scope);
            assert(ps@.contains(ps@[k]));
            assert(members.contains(ps@[k]));
        }
        assert forall|z: Id| #[trigger] held(members, z) implies read_from(
            s2,
            names,
            z,
            views,
            scope,
        ) by {
            assert(ps@.contains(z));
            let j = choose|j: int| 0 <= j < ps@.len() && ps@[j] == z;
            lemma_formula_read_kept(s1, names, s2, names, ps@[j], views[j], scope);
            assert(formula_read(s2, names, z, views[j], scope));
        }
        assert(members_read(s2, names, members, views, scope));
    }
    f
}

/// The formula of the store for the written formula `formula` below the
/// quantifiers that bind the names `bound`, innermost last; an input error
/// if a variable of the formula is not bound.
pub fn load_fof_formula(
    store: &mut Store,
    symbols: &mut Symbols,
    formula: &FofFormula,
    bound: &Vec<String>,
) -> (loaded: Result<Id, LoadError>)
    requires
        old(store).wf(),
        old(symbols).wf(),
    ensures
        final(store).wf(),
        final(symbols).wf(),
        final(store)@.extends(old(store)@),
        grown(old(symbols)@, final(symbols)@),
        loaded is Ok <==> scoped(formula@, name_views(bound)),
        loaded matches Ok(f) ==> formula_read(
            final(store)@,
            final(symbols)@,
            f,
            formula@,
            name_views(bound),
        ),
        loaded matches Err(e) ==> e == LoadError::InputError,
    decreases formula,
{
    let ghost scope = name_views(bound);
    match formula {
        FofFormula::Boolean(b) => {
            proof {
                assert(formula@ matches FofFormulaView::Boolean(c) && c == *b);
            }
            if *b {
                Ok(Formula::truth(store))
            } else {
                Ok(Formula::falsity(store))
            }
        },
        FofFormula::Infix(op, left, right) => {
            proof {
                assert(formula@ == FofFormulaView::Infix(*op, left@, right@));
            }
            load_infix(store, symbols, *op, left, right, bound)
        },
        FofFormula::Predicate(p, arguments) => {
            proof {
                assert(formula@ == FofFormulaView::Predicate(p@, term_views(arguments)));
            }
            load_predicate(store, symbols, p, arguments, bound)
        },
        FofFormula::Unary(g) => {
            proof {
                assert(formula@ matches FofFormulaView::Unary(h) && *h == (**g).view());
            }
            match load_fof_formula(store, symbols, &**g, bound) {
                Ok(p) => {
                    let ghost s1 = store@;
                    let f = Formula::negate(store, p);
                    proof {
                        lemma_formula_read_kept(
                            s1,
                            symbols@,
                            store@,
                            symbols@,
                            p,
                            (**g).view(),
                            scope,
                        );
                    }
                    Ok(f)
                },
                Err(e) => Err(e),
            }
        },
        FofFormula::NonAssoc(op, left, right) => {
            let ghost lv = (**left).view();
            let ghost rv = (**right).view();
            proof {
                assert(formula@ matches FofFormulaView::NonAssoc(o, l, r) && o == *op && *l == lv
                    && *r == rv);
                assert(formula@ == FofFormulaView::NonAssoc(*op, Box::new(lv), Box::new(rv)));
            }
            let l = match load_fof_formula(store, symbols, &**left, bound) {
                Ok(l) => l,
                Err(e) => {
                    return Err(e);
                },
            };
            let ghost s1 = store@;
            let ghost names1 = symbols@;
            let r = match load_fof_formula(store, symbols, &**right, bound) {
                Ok(r) => r,
                Err(e) => {
                    return Err(e);
                },
            };
            proof {
                lemma_formula_read_kept(s1, names1, store@, symbols@, l, lv, scope);
            }
            Ok(connect(store, *op, l, r, Ghost(symbols@), Ghost(lv), Ghost(rv), Ghost(scope)))
        },
        FofFormula::Assoc(op, children) => {
            let ghost views = formula_views(children);
            proof {
                assert(formula@ matches FofFormulaView::Assoc(o, fs) && o == *op && fs == views);
                assert(formula@ == FofFormulaView::Assoc(*op, views));
            }
            match load_formulae(store, symbols, children, bound) {
                Ok(ps) => Ok(join(store, *op, &ps, Ghost(symbols@), Ghost(views), Ghost(scope))),
                Err(e) => {
                    proof {
                        let k = choose|k: int|
                            0 <= k < children@.len() && !scoped(#[trigger] views[k], scope);
                        assert(!scoped(views[k], scope));
                    }
                    Err(e)
                },
            }
        },
        FofFormula::Quantified(q, xs, g) => {
            proof {
                assert(formula@ matches FofFormulaView::Quantified(o, ys, h) && o == *q && ys
                    == name_views(xs) && *h == (**g).view());
            }
            let inner = extended(bound, xs);
            match load_fof_formula(store, symbols, &**g, &inner) {
                Ok(body) => {
                    let f = quantify(
                        store,
                        *q,
                        xs.len(),
                        body,
                        Ghost(symbols@),
                        Ghost((**g).view()),
                        Ghost(name_views(&inner)),
                    );
                    proof {
                        let n = name_views(xs).len();
                        assert(n == xs@.len());
                        assert(quantified_read(
                            store@,
                            symbols@,
                            f,
                            *q,
                            n,
                            (**g).view(),
                            scope + name_views(xs),
                        ));
                    }
                    Ok(f)
                },
                Err(e) => Err(e),
            }
        },
    }
}

} // verus!
