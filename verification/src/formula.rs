//! Formulae of first-order logic with equality.

use crate::collections::{Id, IdList, IdSet};
use crate::store::Store;
use crate::symbol::Symbol;
use vstd::prelude::*;

verus! {

/// A formula as it is stored: its parts are identifiers of other formulae,
/// and of terms in `Eq` and `Prd`.
///
/// `Eq` holds a class of terms that are all equal, `Eqv` a class of formulae
/// that are all equivalent. `All` and `Ex` bind the variable with index 0 of
/// their body.
pub enum Formula {
    T,
    F,
    Eq(IdSet),
    Prd(Symbol, IdList),
    Not(Id),
    Imp(Id, Id),
    Or(IdSet),
    And(IdSet),
    Eqv(IdSet),
    All(Id),
    Ex(Id),
}

/// What a stored formula holds. The members of a set stand in ascending order.
pub enum FormulaView {
    T,
    F,
    Eq(Seq<Id>),
    Prd(Symbol, Seq<Id>),
    Not(Id),
    Imp(Id, Id),
    Or(Seq<Id>),
    And(Seq<Id>),
    Eqv(Seq<Id>),
    All(Id),
    Ex(Id),
}

impl View for Formula {
    type V = FormulaView;

    open spec fn view(&self) -> FormulaView {
        match self {
            Formula::T => FormulaView::T,
            Formula::F => FormulaView::F,
            Formula::Eq(ts) => FormulaView::Eq(ts@),
            Formula::Prd(p, ts) => FormulaView::Prd(*p, ts@),
            Formula::Not(p) => FormulaView::Not(*p),
            Formula::Imp(p, q) => FormulaView::Imp(*p, *q),
            Formula::Or(ps) => FormulaView::Or(ps@),
            Formula::And(ps) => FormulaView::And(ps@),
            Formula::Eqv(ps) => FormulaView::Eqv(ps@),
            Formula::All(p) => FormulaView::All(*p),
            Formula::Ex(p) => FormulaView::Ex(*p),
        }
    }
}

impl Clone for Formula {
    fn clone(&self) -> (copy: Self)
        ensures
            copy@ == self@,
    {
        match self {
            Formula::T => Formula::T,
            Formula::F => Formula::F,
            Formula::Eq(ts) => Formula::Eq(ts.clone()),
            Formula::Prd(p, ts) => Formula::Prd(*p, ts.clone()),
            Formula::Not(p) => Formula::Not(*p),
            Formula::Imp(p, q) => Formula::Imp(*p, *q),
            Formula::Or(ps) => Formula::Or(ps.clone()),
            Formula::And(ps) => Formula::And(ps.clone()),
            Formula::Eqv(ps) => Formula::Eqv(ps.clone()),
            Formula::All(p) => Formula::All(*p),
            Formula::Ex(p) => Formula::Ex(*p),
        }
    }
}

impl Formula {
    /// The identifier of the negation of `f`.
    pub fn negate(store: &mut Store, f: Id) -> (r: Id)
        requires
            old(store).wf(),
            f < old(store)@.formulae.len(),
        ensures
            final(store).wf(),
            final(store)@.extends(old(store)@),
            final(store)@.is(r, FormulaView::Not(f)),
            final(store)@.terms == old(store)@.terms,
            final(store)@.formulae.len() <= old(store)@.formulae.len() + 1,
            final(store)@.formulae.len() > old(store)@.formulae.len() ==> r == old(
                store,
            )@.formulae.len(),
    {
        store.intern(Formula::Not(f))
    }

    /// The identifier of the formula that is always true.
    pub fn truth(store: &mut Store) -> (r: Id)
        requires
            old(store).wf(),
        ensures
            final(store).wf(),
            final(store)@.extends(old(store)@),
            final(store)@.is(r, FormulaView::T),
            final(store)@.terms == old(store)@.terms,
            final(store)@.formulae.len() <= old(store)@.formulae.len() + 1,
            final(store)@.formulae.len() > old(store)@.formulae.len() ==> r == old(
                store,
            )@.formulae.len(),
    {
        store.intern(Formula::T)
    }

    /// The identifier of the formula that is always false.
    pub fn falsity(store: &mut Store) -> (r: Id)
        requires
            old(store).wf(),
        ensures
            final(store).wf(),
            final(store)@.extends(old(store)@),
            final(store)@.is(r, FormulaView::F),
            final(store)@.terms == old(store)@.terms,
            final(store)@.formulae.len() <= old(store)@.formulae.len() + 1,
            final(store)@.formulae.len() > old(store)@.formulae.len() ==> r == old(
                store,
            )@.formulae.len(),
    {
        store.intern(Formula::F)
    }

    /// Whether the formula is `T`.
    pub fn is_true(&self) -> (yes: bool)
        ensures
            yes == (self@ is T),
    {
        match self {
            Formula::T => true,
            _ => false,
        }
    }

    /// Whether the formula is `F`.
    pub fn is_false(&self) -> (yes: bool)
        ensures
            yes == (self@ is F),
    {
        match self {
            Formula::F => true,
            _ => false,
        }
    }

    /// Whether two formulae hold the same.
    pub fn same(&self, other: &Formula) -> (equal: bool)
        ensures
            equal == (self@ == other@),
    {
        match (self, other) {
            (Formula::T, Formula::T) => true,
            (Formula::F, Formula::F) => true,
            (Formula::Eq(a), Formula::Eq(b)) => a.same(b),
            (Formula::Prd(p, a), Formula::Prd(q, b)) => *p == *q && a.same(b),
            (Formula::Not(p), Formula::Not(q)) => *p == *q,
            (Formula::Imp(p, q), Formula::Imp(r, s)) => *p == *r && *q == *s,
            (Formula::Or(a), Formula::Or(b)) => a.same(b),
            (Formula::And(a), Formula::And(b)) => a.same(b),
            (Formula::Eqv(a), Formula::Eqv(b)) => a.same(b),
            (Formula::All(p), Formula::All(q)) => *p == *q,
            (Formula::Ex(p), Formula::Ex(q)) => *p == *q,
            _ => false,
        }
    }
}

} // verus!
