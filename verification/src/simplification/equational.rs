//! The rewrites of the simplifier that concern equations.

use crate::collections::Id;
use crate::formula::{Formula, FormulaView};
use crate::simplification::classes::{classes_combined, combine_classes};
use crate::store::{Store, StoreView};
use vstd::prelude::*;

verus! {

/// What the rewriting of trivial equations makes of `f`: an equation with
/// fewer than two terms is `T`, and every other formula stays as it is.
pub open spec fn equation_trivialised(s: StoreView, f: Id, r: Id) -> bool {
    match s.formulae[f as int] {
        FormulaView::Eq(ts) => if ts.len() <= 1 {
            s.is(r, FormulaView::T)
        } else {
            r == f
        },
        _ => r == f,
    }
}

/// Rewrites an equation with fewer than two terms to `T`.
pub fn trivial_equality(store: &mut Store, f: Id) -> (r: Id)
    requires
        old(store).wf(),
        f < old(store)@.formulae.len(),
    ensures
        final(store).wf(),
        final(store)@.extends(old(store)@),
        r < final(store)@.formulae.len(),
        equation_trivialised(final(store)@, f, r),
{
    let trivial = match store.formula(f) {
        Formula::Eq(ts) => ts.len() <= 1,
        _ => false,
    };
    if trivial {
        Formula::truth(store)
    } else {
        f
    }
}

/// Merges the equations of a conjunction that share terms.
pub fn combine_equations(store: &mut Store, f: Id) -> (r: Id)
    requires
        old(store).wf(),
        f < old(store)@.formulae.len(),
    ensures
        final(store).wf(),
        final(store)@.extends(old(store)@),
        r < final(store)@.formulae.len(),
        classes_combined(final(store)@, f, r, false),
{
    combine_classes(store, f, false)
}

} // verus!
