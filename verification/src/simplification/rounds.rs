//! What the simplifier makes of a formula, rewrite by rewrite.
//!
//! A formula is simplified in rounds. In a round the parts of the formula
//! are simplified, and then each rewrite is applied once at the top, each
//! to what the rewrite before it gave. The rounds end with the first that
//! gives back what it was given. The store grows while this is done: each
//! rewrite is described in the store as it is when the rewrite is done.

use crate::collections::Id;
use crate::formula::FormulaView;
use crate::lowering::vacuous_dropped;
use crate::simplification::classes::classes_combined;
use crate::simplification::equational::equation_trivialised;
use crate::simplification::propositional::{
    contradicted, flattened, implications_combined, propagated, trivialised, unnegated,
};
use crate::simplification::simplifier::image_of;
use crate::store::StoreView;
use vstd::prelude::*;

verus! {

/// The stores and formulae between the propositional rewrites of a round.
pub struct Passes {
    pub propagated_in: StoreView,
    pub propagated: Id,
    pub contradicted_in: StoreView,
    pub contradicted: Id,
    pub combined_in: StoreView,
    pub combined: Id,
    pub paired_in: StoreView,
    pub paired: Id,
    pub unnegated: Id,
    pub flattened_in: StoreView,
    pub flattened: Id,
}

/// Whether the propositional rewrites, one after the other, make `r` of
/// `f`, by way of the formulae and in the stores of `w`, the last of them in
/// the store `after`.
pub open spec fn passes_hold(w: Passes, after: StoreView, f: Id, r: Id) -> bool {
    &&& propagated(w.propagated_in, f, w.propagated)
    &&& contradicted(w.contradicted_in, w.propagated, w.contradicted)
    &&& classes_combined(w.combined_in, w.contradicted, w.combined, true)
    &&& implications_combined(w.paired_in, w.combined, w.paired)
    &&& unnegated(w.paired_in, w.paired, w.unnegated)
    &&& flattened(w.flattened_in, w.unnegated, w.flattened)
    &&& trivialised(after, w.flattened, r)
    &&& w.contradicted_in.extends(w.propagated_in)
    &&& w.combined_in.extends(w.contradicted_in)
    &&& w.paired_in.extends(w.combined_in)
    &&& w.flattened_in.extends(w.paired_in)
    &&& after.extends(w.flattened_in)
}

/// Whether the propositional rewrites, one after the other, make `r` of
/// `f`, while the store grows from `before` to `after`.
pub open spec fn propositionally_rewritten(
    before: StoreView,
    after: StoreView,
    f: Id,
    r: Id,
) -> bool {
    exists|w: Passes| #[trigger] passes_hold(w, after, f, r) && w.propagated_in.extends(before)
}

/// Whether the equational rewrites, one after the other, make `r` of `f`,
/// the first in the store `middle` and the second in the store `after`.
pub open spec fn equations_hold(middle: StoreView, x: Id, after: StoreView, f: Id, r: Id) -> bool {
    &&& equation_trivialised(middle, f, x)
    &&& classes_combined(after, x, r, false)
    &&& after.extends(middle)
}

/// Whether the equational rewrites, one after the other, make `r` of `f`,
/// while the store grows from `before` to `after`.
pub open spec fn equationally_rewritten(before: StoreView, after: StoreView, f: Id, r: Id) -> bool {
    exists|middle: StoreView, x: Id| #[trigger]
        equations_hold(middle, x, after, f, r) && middle.extends(before)
}

/// A mark for a store and a formula that are spoken of together.
pub open spec fn at(s: StoreView, x: Id) -> bool {
    true
}

/// A mark for two stores and two formulae that are spoken of together.
pub open spec fn at_both(s: StoreView, x: Id, t: StoreView, y: Id) -> bool {
    true
}

/// A mark for members and a map that are spoken of together.
pub open spec fn mapped(qs: Seq<Id>, to: Map<Id, Id>) -> bool {
    true
}

/// Whether `q` is what simplifying makes of the part `p` of a formula of
/// the weight `bound`, at some time while the store grows from `before` to
/// `after`.
pub open spec fn part_simplified(
    bound: nat,
    before: StoreView,
    after: StoreView,
    p: Id,
    q: Id,
) -> bool
    decreases bound, 0nat,
{
    exists|from: StoreView, to: StoreView| #[trigger]
        at_both(from, p, to, q) && from.extends(before) && to.extends(from) && after.extends(to)
            && from.weight(p) < bound && simplified(from, to, p, q)
}

/// Whether `a` is `f` with each of the formulae directly below its top
/// connective simplified, while the store grows from `before` to `after`.
pub open spec fn parts_simplified(before: StoreView, after: StoreView, f: Id, a: Id) -> bool
    decreases before.weight(f), 2nat,
{
    let bound = before.weight(f);
    after.extends(before) && match before.formulae[f as int] {
        FormulaView::Not(p) => exists|q: Id| #[trigger]
            after.is(a, FormulaView::Not(q)) && part_simplified(bound, before, after, p, q),
        FormulaView::All(p) => exists|q: Id| #[trigger]
            after.is(a, FormulaView::All(q)) && part_simplified(bound, before, after, p, q),
        FormulaView::Ex(p) => exists|q: Id| #[trigger]
            after.is(a, FormulaView::Ex(q)) && part_simplified(bound, before, after, p, q),
        FormulaView::Imp(p, q) => exists|x: Id, y: Id| #[trigger]
            after.is(a, FormulaView::Imp(x, y)) && part_simplified(bound, before, after, p, x)
                && part_simplified(bound, before, after, q, y),
        FormulaView::Or(ps) => exists|qs: Seq<Id>, to: Map<Id, Id>| #[trigger]
            mapped(qs, to) && members_simplified(bound, before, after, ps, qs, to) && after.is(
                a,
                FormulaView::Or(qs),
            ),
        FormulaView::And(ps) => exists|qs: Seq<Id>, to: Map<Id, Id>| #[trigger]
            mapped(qs, to) && members_simplified(bound, before, after, ps, qs, to) && after.is(
                a,
                FormulaView::And(qs),
            ),
        FormulaView::Eqv(ps) => exists|qs: Seq<Id>, to: Map<Id, Id>| #[trigger]
            mapped(qs, to) && members_simplified(bound, before, after, ps, qs, to) && after.is(
                a,
                FormulaView::Eqv(qs),
            ),
        _ => a == f,
    }
}

/// Whether `qs` holds what simplifying makes of the members `ps` of a
/// connective of the weight `bound`, while the store grows from `before` to
/// `after`, where `to` gives for each member what it becomes.
pub open spec fn members_simplified(
    bound: nat,
    before: StoreView,
    after: StoreView,
    ps: Seq<Id>,
    qs: Seq<Id>,
    to: Map<Id, Id>,
) -> bool
    decreases bound, 1nat,
{
    &&& image_of(qs, ps, to)
    &&& forall|p: Id| #[trigger]
        ps.contains(p) ==> part_simplified(bound, before, after, p, to[p])
}

/// What was simplified while the store grew is simplified while it grows
/// further.
pub proof fn lemma_part_extends(
    bound: nat,
    before: StoreView,
    after: StoreView,
    later: StoreView,
    p: Id,
    q: Id,
)
    requires
        later.extends(after),
        part_simplified(bound, before, after, p, q),
    ensures
        part_simplified(bound, before, later, p, q),
{
    let (from, to) = choose|from: StoreView, to: StoreView| #[trigger]
        at_both(from, p, to, q) && from.extends(before) && to.extends(from) && after.extends(to)
            && from.weight(p) < bound && simplified(from, to, p, q);
    assert(later.extends(to));
    assert(at_both(from, p, to, q));
}

/// What was simplified while the store grew is simplified while it grows
/// further.
pub proof fn lemma_members_extend(
    bound: nat,
    before: StoreView,
    after: StoreView,
    later: StoreView,
    ps: Seq<Id>,
    qs: Seq<Id>,
    to: Map<Id, Id>,
)
    requires
        later.extends(after),
        members_simplified(bound, before, after, ps, qs, to),
    ensures
        members_simplified(bound, before, later, ps, qs, to),
{
    assert forall|p: Id| #[trigger] ps.contains(p) implies part_simplified(
        bound,
        before,
        later,
        p,
        to[p],
    ) by {
        lemma_part_extends(bound, before, after, later, p, to[p]);
    }
}

/// The stores and formulae between the steps of a round.
pub struct Round {
    pub rebuilt_in: StoreView,
    pub rebuilt: Id,
    pub propositional_in: StoreView,
    pub propositional: Id,
    pub equational_in: StoreView,
    pub equational: Id,
}

/// Whether one round makes `r` of `f`, while the store grows from `before`
/// to `after`: the parts are simplified, then the propositional rewrites
/// are applied at the top, then the equational ones, then a quantifier that
/// binds nothing is dropped.
pub open spec fn rewritten_once(before: StoreView, after: StoreView, f: Id, r: Id) -> bool
    decreases before.weight(f), 3nat,
{
    exists|w: Round| #[trigger]
        at_both(w.rebuilt_in, w.rebuilt, w.equational_in, w.equational) && parts_simplified(
            before,
            w.rebuilt_in,
            f,
            w.rebuilt,
        ) && propositionally_rewritten(w.rebuilt_in, w.propositional_in, w.rebuilt, w.propositional)
            && equationally_rewritten(
            w.propositional_in,
            w.equational_in,
            w.propositional,
            w.equational,
        ) && vacuous_dropped(after, w.equational, r) && after.extends(w.equational_in)
}

/// Whether simplifying makes `r` of `f`, while the store grows from
/// `before` to `after`: rounds are made until one gives back what it was
/// given, and that is `r`.
pub open spec fn simplified(before: StoreView, after: StoreView, f: Id, r: Id) -> bool
    decreases before.weight(f), 4nat,
{
    exists|middle: StoreView, x: Id| #[trigger]
        at(middle, x) && rewritten_once(before, middle, f, x) && if x == f {
            r == f && after == middle
        } else {
            middle.weight(x) < before.weight(f) && simplified(middle, after, x, r)
        }
}

} // verus!
