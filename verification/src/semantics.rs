//! The classical truth value of a propositional formula.
//!
//! Atoms are the predicate applications. An assignment gives each atom, by
//! its identifier, a truth value; the connectives have their classical
//! meaning. An equivalence class holds when all its members have the same
//! truth value. Equations and quantified formulae are not propositional.

use crate::collections::Id;
use crate::formula::FormulaView;
use crate::store::StoreView;
use vstd::prelude::*;

verus! {

impl StoreView {
    /// Whether `f` is built from `T`, `F` and predicate applications by
    /// `Not`, `Imp`, `Or`, `And` and `Eqv` alone.
    pub open spec fn propositional(self, f: Id) -> bool
        decreases f,
    {
        f < self.formulae.len() && match self.formulae[f as int] {
            FormulaView::T | FormulaView::F | FormulaView::Prd(_, _) => true,
            FormulaView::Eq(_) | FormulaView::All(_) | FormulaView::Ex(_) => false,
            FormulaView::Not(p) => p < f && self.propositional(p),
            FormulaView::Imp(p, q) => p < f && q < f && self.propositional(p)
                && self.propositional(q),
            FormulaView::Or(ps) => forall|i: int|
                0 <= i < ps.len() ==> (#[trigger] ps[i]) < f && self.propositional(ps[i]),
            FormulaView::And(ps) => forall|i: int|
                0 <= i < ps.len() ==> (#[trigger] ps[i]) < f && self.propositional(ps[i]),
            FormulaView::Eqv(ps) => forall|i: int|
                0 <= i < ps.len() ==> (#[trigger] ps[i]) < f && self.propositional(ps[i]),
        }
    }

    /// The truth value of `f` when the atoms are valued by `atoms`.
    pub open spec fn holds(self, f: Id, atoms: spec_fn(Id) -> bool) -> bool
        decreases f,
    {
        f < self.formulae.len() && match self.formulae[f as int] {
            FormulaView::T => true,
            FormulaView::F => false,
            FormulaView::Prd(_, _) | FormulaView::Eq(_) | FormulaView::All(_) | FormulaView::Ex(
                _,
            ) => atoms(f),
            FormulaView::Not(p) => !(p < f && self.holds(p, atoms)),
            FormulaView::Imp(p, q) => (p < f && self.holds(p, atoms)) ==> (q < f && self.holds(
                q,
                atoms,
            )),
            FormulaView::Or(ps) => exists|i: int|
                0 <= i < ps.len() && (#[trigger] ps[i]) < f && self.holds(ps[i], atoms),
            FormulaView::And(ps) => forall|i: int|
                0 <= i < ps.len() ==> (#[trigger] ps[i]) < f && self.holds(ps[i], atoms),
            FormulaView::Eqv(ps) => forall|i: int, j: int|
                0 <= i < ps.len() && 0 <= j < ps.len() ==> (#[trigger] ps[i]) < f && (
                #[trigger] ps[j]) < f && self.holds(ps[i], atoms) == self.holds(ps[j], atoms),
        }
    }
}

/// A formula has the same truth value in a store and in every store that
/// extends it.
pub proof fn lemma_holds_extends(
    old: StoreView,
    new: StoreView,
    f: Id,
    atoms: spec_fn(Id) -> bool,
)
    requires
        new.extends(old),
        f < old.formulae.len(),
    ensures
        new.holds(f, atoms) == old.holds(f, atoms),
    decreases f,
{
    assert(new.formulae[f as int] == old.formulae[f as int]);
    match old.formulae[f as int] {
        FormulaView::Not(p) => {
            if p < f {
                lemma_holds_extends(old, new, p, atoms);
            }
        },
        FormulaView::Imp(p, q) => {
            if p < f {
                lemma_holds_extends(old, new, p, atoms);
            }
            if q < f {
                lemma_holds_extends(old, new, q, atoms);
            }
        },
        FormulaView::Or(ps) => {
            assert forall|i: int| 0 <= i < ps.len() && (#[trigger] ps[i]) < f implies new.holds(
                ps[i],
                atoms,
            ) == old.holds(ps[i], atoms) by {
                lemma_holds_extends(old, new, ps[i], atoms);
            }
        },
        FormulaView::And(ps) => {
            assert forall|i: int| 0 <= i < ps.len() && (#[trigger] ps[i]) < f implies new.holds(
                ps[i],
                atoms,
            ) == old.holds(ps[i], atoms) by {
                lemma_holds_extends(old, new, ps[i], atoms);
            }
        },
        FormulaView::Eqv(ps) => {
            assert forall|i: int| 0 <= i < ps.len() && (#[trigger] ps[i]) < f implies new.holds(
                ps[i],
                atoms,
            ) == old.holds(ps[i], atoms) by {
                lemma_holds_extends(old, new, ps[i], atoms);
            }
        },
        _ => {},
    }
}

/// A formula is propositional in a store exactly if it is in every store
/// that extends it.
pub proof fn lemma_propositional_extends(old: StoreView, new: StoreView, f: Id)
    requires
        new.extends(old),
        f < old.formulae.len(),
    ensures
        new.propositional(f) == old.propositional(f),
    decreases f,
{
    assert(new.formulae[f as int] == old.formulae[f as int]);
    match old.formulae[f as int] {
        FormulaView::Not(p) => {
            if p < f {
                lemma_propositional_extends(old, new, p);
            }
        },
        FormulaView::Imp(p, q) => {
            if p < f {
                lemma_propositional_extends(old, new, p);
            }
            if q < f {
                lemma_propositional_extends(old, new, q);
            }
        },
        FormulaView::Or(ps) => {
            assert forall|i: int| 0 <= i < ps.len() && (#[trigger] ps[i])
                < f implies new.propositional(ps[i]) == old.propositional(ps[i]) by {
                lemma_propositional_extends(old, new, ps[i]);
            }
        },
        FormulaView::And(ps) => {
            assert forall|i: int| 0 <= i < ps.len() && (#[trigger] ps[i])
                < f implies new.propositional(ps[i]) == old.propositional(ps[i]) by {
                lemma_propositional_extends(old, new, ps[i]);
            }
        },
        FormulaView::Eqv(ps) => {
            assert forall|i: int| 0 <= i < ps.len() && (#[trigger] ps[i])
                < f implies new.propositional(ps[i]) == old.propositional(ps[i]) by {
                lemma_propositional_extends(old, new, ps[i]);
            }
        },
        _ => {},
    }
}

} // verus!
