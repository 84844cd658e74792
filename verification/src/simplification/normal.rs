//! Formulae that the simplifier leaves as they are.
//!
//! A formula is normal when no rewrite changes it and the formulae below it
//! are normal. The result of each rewrite is determined by the formula it is
//! given, so a normal formula is what simplifying it gives.

use crate::collections::{lemma_ascending_unique, Id};
use crate::formula::FormulaView;
use crate::lowering::{lemma_vacuous_extends, vacuous};
use crate::simplification::classes::{
    class_among,
    classes_combined,
    eq_class_of,
    eq_classes,
    eqv_class_of,
    eqv_classes,
    lemma_classes_from_members,
    lemma_classes_kept,
    member_combined,
    member_eq_class,
    member_eqv_class,
    member_kept,
};
use crate::simplification::equational::equation_trivialised;
use crate::simplification::lighter::lemma_members_valid;
use crate::simplification::merging::lemma_combined_lighter;
use crate::simplification::propositional::{
    contradicted,
    first_paired,
    flattened,
    implications_combined,
    is_and,
    is_eqv,
    is_or,
    is_paired,
    lemma_complement_kept,
    lemma_constants_kept,
    lemma_lifted_kept,
    lemma_paired_kept,
    member_folded,
    member_lifted_and,
    member_lifted_or,
    propagated,
    trivialised,
    unnegated,
};
use crate::store::{lemma_interning, StoreView};
use vstd::prelude::*;

verus! {

/// Whether no propositional rewrite changes `f` at its top connective.
pub open spec fn propositionally_normal(s: StoreView, f: Id) -> bool {
    &&& propagated(s, f, f)
    &&& contradicted(s, f, f)
    &&& classes_combined(s, f, f, true)
    &&& implications_combined(s, f, f)
    &&& unnegated(s, f, f)
    &&& flattened(s, f, f)
    &&& trivialised(s, f, f)
}

/// Whether no equational rewrite changes `f` at its top connective.
pub open spec fn equationally_normal(s: StoreView, f: Id) -> bool {
    &&& equation_trivialised(s, f, f)
    &&& classes_combined(s, f, f, false)
}

/// Whether no rewrite changes `f` at its top connective.
pub open spec fn root_normal(s: StoreView, f: Id) -> bool {
    propositionally_normal(s, f) && equationally_normal(s, f) && !vacuous(s, f)
}

/// Whether the formulae directly below the top connective of `f` are normal.
pub open spec fn parts_normal(s: StoreView, f: Id) -> bool {
    match s.formulae[f as int] {
        FormulaView::T | FormulaView::F | FormulaView::Prd(_, _) | FormulaView::Eq(_) => true,
        FormulaView::Not(p) => p < f && is_normal(s, p),
        FormulaView::All(p) => p < f && is_normal(s, p),
        FormulaView::Ex(p) => p < f && is_normal(s, p),
        FormulaView::Imp(p, q) => p < f && q < f && is_normal(s, p) && is_normal(s, q),
        FormulaView::Or(ps) => forall|i: int|
            0 <= i < ps.len() ==> (#[trigger] ps[i]) < f && is_normal(s, ps[i]),
        FormulaView::And(ps) => forall|i: int|
            0 <= i < ps.len() ==> (#[trigger] ps[i]) < f && is_normal(s, ps[i]),
        FormulaView::Eqv(ps) => forall|i: int|
            0 <= i < ps.len() ==> (#[trigger] ps[i]) < f && is_normal(s, ps[i]),
    }
}

/// Whether the simplifier leaves `f` as it is: no rewrite changes `f`, nor
/// any formula below it.
pub open spec fn is_normal(s: StoreView, f: Id) -> bool
    decreases f,
{
    f < s.formulae.len() && root_normal(s, f) && match s.formulae[f as int] {
        FormulaView::T | FormulaView::F | FormulaView::Prd(_, _) | FormulaView::Eq(_) => true,
        FormulaView::Not(p) => p < f && is_normal(s, p),
        FormulaView::All(p) => p < f && is_normal(s, p),
        FormulaView::Ex(p) => p < f && is_normal(s, p),
        FormulaView::Imp(p, q) => p < f && q < f && is_normal(s, p) && is_normal(s, q),
        FormulaView::Or(ps) => forall|i: int|
            0 <= i < ps.len() ==> (#[trigger] ps[i]) < f && is_normal(s, ps[i]),
        FormulaView::And(ps) => forall|i: int|
            0 <= i < ps.len() ==> (#[trigger] ps[i]) < f && is_normal(s, ps[i]),
        FormulaView::Eqv(ps) => forall|i: int|
            0 <= i < ps.len() ==> (#[trigger] ps[i]) < f && is_normal(s, ps[i]),
    }
}

/// Two conjunctions with the same members are the same formula.
pub proof fn lemma_is_and_unique(s: StoreView, a: Id, b: Id, member: spec_fn(Id) -> bool)
    requires
        s.wf(),
        is_and(s, a, member),
        is_and(s, b, member),
    ensures
        a == b,
{
    match (s.formulae[a as int], s.formulae[b as int]) {
        (FormulaView::And(qs), FormulaView::And(rs)) => {
            lemma_ascending_unique(qs, rs);
            lemma_interning(s, a, b);
        },
        _ => {},
    }
}

/// Two disjunctions with the same members are the same formula.
pub proof fn lemma_is_or_unique(s: StoreView, a: Id, b: Id, member: spec_fn(Id) -> bool)
    requires
        s.wf(),
        is_or(s, a, member),
        is_or(s, b, member),
    ensures
        a == b,
{
    match (s.formulae[a as int], s.formulae[b as int]) {
        (FormulaView::Or(qs), FormulaView::Or(rs)) => {
            lemma_ascending_unique(qs, rs);
            lemma_interning(s, a, b);
        },
        _ => {},
    }
}

/// Two equivalence classes with the same members are the same formula.
pub proof fn lemma_is_eqv_unique(s: StoreView, a: Id, b: Id, member: spec_fn(Id) -> bool)
    requires
        s.wf(),
        is_eqv(s, a, member),
        is_eqv(s, b, member),
    ensures
        a == b,
{
    match (s.formulae[a as int], s.formulae[b as int]) {
        (FormulaView::Eqv(qs), FormulaView::Eqv(rs)) => {
            lemma_ascending_unique(qs, rs);
            lemma_interning(s, a, b);
        },
        _ => {},
    }
}

/// Boolean propagation determines its result.
pub proof fn lemma_propagated_unique(s: StoreView, f: Id, a: Id, b: Id)
    requires
        s.wf(),
        f < s.formulae.len(),
        propagated(s, f, a),
        propagated(s, f, b),
    ensures
        a == b,
{
    lemma_interning(s, a, b);
    match s.formulae[f as int] {
        FormulaView::And(ps) => {
            if !crate::simplification::propositional::has_false(s, ps) {
                lemma_is_and_unique(
                    s,
                    a,
                    b,
                    crate::simplification::propositional::not_true(s, ps),
                );
            }
        },
        FormulaView::Or(ps) => {
            if !crate::simplification::propositional::has_true(s, ps) {
                lemma_is_or_unique(
                    s,
                    a,
                    b,
                    crate::simplification::propositional::not_false(s, ps),
                );
            }
        },
        FormulaView::Eqv(ps) => {
            if crate::simplification::propositional::has_false(s, ps) {
                lemma_is_and_unique(
                    s,
                    a,
                    b,
                    crate::simplification::propositional::negated(s, ps),
                );
            } else {
                lemma_is_eqv_unique(
                    s,
                    a,
                    b,
                    crate::simplification::propositional::not_true(s, ps),
                );
            }
        },
        _ => {},
    }
}

/// The search for contradictions determines its result.
pub proof fn lemma_contradicted_unique(s: StoreView, f: Id, a: Id, b: Id)
    requires
        s.wf(),
        f < s.formulae.len(),
        contradicted(s, f, a),
        contradicted(s, f, b),
    ensures
        a == b,
{
    lemma_interning(s, a, b);
}

/// Merging determines its result.
pub proof fn lemma_combined_unique(s: StoreView, f: Id, a: Id, b: Id, equivalences: bool)
    requires
        s.wf(),
        f < s.formulae.len(),
        classes_combined(s, f, a, equivalences),
        classes_combined(s, f, b, equivalences),
    ensures
        a == b,
{
    match s.formulae[f as int] {
        FormulaView::And(ps) => {
            lemma_is_and_unique(s, a, b, |z: Id| member_combined(s, ps, z, equivalences));
        },
        _ => {},
    }
}

/// The pairing of implications determines its result.
pub proof fn lemma_implications_unique(s: StoreView, f: Id, a: Id, b: Id)
    requires
        s.wf(),
        f < s.formulae.len(),
        implications_combined(s, f, a),
        implications_combined(s, f, b),
    ensures
        a == b,
{
    match s.formulae[f as int] {
        FormulaView::And(ps) => {
            if exists|i: int| first_paired(s, ps, i) {
                let i = choose|i: int|
                    first_paired(s, ps, i) && is_and(s, a, |z: Id| member_folded(s, ps, ps[i], z));
                let j = choose|j: int|
                    first_paired(s, ps, j) && is_and(s, b, |z: Id| member_folded(s, ps, ps[j], z));
                if i < j {
                    assert(!is_paired(s, ps, ps[i]));
                }
                if j < i {
                    assert(!is_paired(s, ps, ps[j]));
                }
                lemma_is_and_unique(s, a, b, |z: Id| member_folded(s, ps, ps[i], z));
            }
        },
        _ => {},
    }
}

/// Flattening determines its result.
pub proof fn lemma_flattened_unique(s: StoreView, f: Id, a: Id, b: Id)
    requires
        s.wf(),
        f < s.formulae.len(),
        flattened(s, f, a),
        flattened(s, f, b),
    ensures
        a == b,
{
    match s.formulae[f as int] {
        FormulaView::And(ps) => {
            lemma_is_and_unique(s, a, b, |x: Id| member_lifted_and(s, ps, x));
        },
        FormulaView::Or(ps) => {
            lemma_is_or_unique(s, a, b, |x: Id| member_lifted_or(s, ps, x));
        },
        _ => {},
    }
}

/// The rewriting of trivial connectives, and that of trivial equations,
/// determine their results; so does the removal of a double negation.
pub proof fn lemma_trivialised_unique(s: StoreView, f: Id, a: Id, b: Id)
    requires
        s.wf(),
        f < s.formulae.len(),
    ensures
        trivialised(s, f, a) && trivialised(s, f, b) ==> a == b,
        equation_trivialised(s, f, a) && equation_trivialised(s, f, b) ==> a == b,
        unnegated(s, f, a) && unnegated(s, f, b) ==> a == b,
{
    lemma_interning(s, a, b);
}

/// A formula that boolean propagation leaves as it is in a store is left as
/// it is in every store that extends it.
pub proof fn lemma_propagated_kept(old: StoreView, new: StoreView, f: Id)
    requires
        old.wf(),
        new.extends(old),
        f < old.formulae.len(),
        propagated(old, f, f),
    ensures
        propagated(new, f, f),
{
    assert(old.formula_ok(old.formulae[f as int], f as int));
    match old.formulae[f as int] {
        FormulaView::And(ps) => {
            lemma_constants_kept(old, new, ps);
        },
        FormulaView::Or(ps) => {
            lemma_constants_kept(old, new, ps);
        },
        FormulaView::Eqv(ps) => {
            lemma_constants_kept(old, new, ps);
        },
        _ => {},
    }
}

/// A formula in which the search for contradictions finds none in a store
/// has none in every store that extends it.
pub proof fn lemma_contradicted_kept(old: StoreView, new: StoreView, f: Id)
    requires
        old.wf(),
        new.extends(old),
        f < old.formulae.len(),
        contradicted(old, f, f),
    ensures
        contradicted(new, f, f),
{
    assert(old.formula_ok(old.formulae[f as int], f as int));
    match old.formulae[f as int] {
        FormulaView::And(ps) => {
            lemma_complement_kept(old, new, ps);
        },
        FormulaView::Or(ps) => {
            lemma_complement_kept(old, new, ps);
        },
        FormulaView::Eqv(ps) => {
            lemma_complement_kept(old, new, ps);
        },
        _ => {},
    }
}

/// A conjunction that merging leaves as it is in a store is left as it is
/// in every store that extends it.
pub proof fn lemma_combined_kept(old: StoreView, new: StoreView, f: Id, equivalences: bool)
    requires
        old.wf(),
        new.wf(),
        new.extends(old),
        f < old.formulae.len(),
        classes_combined(old, f, f, equivalences),
    ensures
        classes_combined(new, f, f, equivalences),
{
    assert(old.formula_ok(old.formulae[f as int], f as int));
    match old.formulae[f as int] {
        FormulaView::And(ps) => {
            lemma_combined_lighter(old, f, f, equivalences);
            lemma_classes_kept(old, new, ps);
            lemma_classes_from_members(old, ps);
            lemma_members_valid(old, f, ps);
            assert forall|z: Id| ps.contains(z) <==> member_combined(
                new,
                ps,
                z,
                equivalences,
            ) by {
                if ps.contains(z) {
                    assert(member_combined(old, ps, z, equivalences));
                    assert(new.formulae[z as int] == old.formulae[z as int]);
                }
                if member_eq_class(new, ps, z) {
                    let eqs = eq_classes(old, ps);
                    let k = choose|k: int|
                        0 <= k < eqs.len() && #[trigger] eqs[k] == eq_class_of(new, z);
                    assert(class_among(old, ps, eqs[k], false));
                    let x = choose|x: Id|
                        ps.contains(x) && old.formulae[x as int] is Eq && eq_class_of(old, x)
                            == eqs[k];
                    assert(new.formulae[x as int] == old.formulae[x as int]);
                    lemma_interning(new, x, z);
                }
                if equivalences && member_eqv_class(new, ps, z) {
                    let eqvs = eqv_classes(old, ps);
                    let k = choose|k: int|
                        0 <= k < eqvs.len() && #[trigger] eqvs[k] == eqv_class_of(new, z);
                    assert(class_among(old, ps, eqvs[k], true));
                    let x = choose|x: Id|
                        ps.contains(x) && old.formulae[x as int] is Eqv && eqv_class_of(old, x)
                            == eqvs[k];
                    assert(new.formulae[x as int] == old.formulae[x as int]);
                    lemma_interning(new, x, z);
                }
                if member_kept(new, ps, z, equivalences) {
                    assert(ps.contains(z));
                }
            }
        },
        _ => {},
    }
}

/// A conjunction that the pairing of implications leaves as it is has no
/// implication with its converse among its members.
pub proof fn lemma_unpaired(s: StoreView, f: Id, ps: Seq<Id>)
    requires
        s.wf(),
        s.is(f, FormulaView::And(ps)),
        implications_combined(s, f, f),
    ensures
        forall|i: int| 0 <= i < ps.len() ==> !is_paired(s, ps, #[trigger] ps[i]),
{
    if exists|i: int| first_paired(s, ps, i) {
        let i = choose|i: int|
            first_paired(s, ps, i) && is_and(s, f, |z: Id| member_folded(s, ps, ps[i], z));
        let x = ps[i];
        assert(ps.contains(x));
        assert(member_folded(s, ps, x, x));
    }
    assert forall|i: int| 0 <= i < ps.len() implies !is_paired(s, ps, #[trigger] ps[i]) by {
        if is_paired(s, ps, ps[i]) {
            lemma_first_paired_exists(s, ps, i);
        }
    }
}

/// Where a member is an implication with its converse among the members,
/// there is a first such member.
pub proof fn lemma_first_paired_exists(s: StoreView, ps: Seq<Id>, i: int)
    requires
        0 <= i < ps.len(),
        is_paired(s, ps, ps[i]),
    ensures
        exists|j: int| first_paired(s, ps, j),
    decreases i,
{
    if exists|j: int| 0 <= j < i && is_paired(s, ps, ps[j]) {
        let j = choose|j: int| 0 <= j < i && is_paired(s, ps, ps[j]);
        lemma_first_paired_exists(s, ps, j);
    } else {
        assert(first_paired(s, ps, i));
    }
}

/// A conjunction that the pairing of implications leaves as it is in a store
/// is left as it is in every store that extends it.
pub proof fn lemma_implications_kept(old: StoreView, new: StoreView, f: Id)
    requires
        old.wf(),
        new.extends(old),
        f < old.formulae.len(),
        implications_combined(old, f, f),
    ensures
        implications_combined(new, f, f),
{
    assert(old.formula_ok(old.formulae[f as int], f as int));
    match old.formulae[f as int] {
        FormulaView::And(ps) => {
            lemma_unpaired(old, f, ps);
            if exists|i: int| first_paired(new, ps, i) {
                let i = choose|i: int| first_paired(new, ps, i);
                assert(ps.contains(ps[i]));
                lemma_paired_kept(old, new, ps, ps[i]);
            }
        },
        _ => {},
    }
}

/// A formula that flattening leaves as it is in a store is left as it is in
/// every store that extends it.
pub proof fn lemma_flattened_kept(old: StoreView, new: StoreView, f: Id)
    requires
        old.wf(),
        new.extends(old),
        f < old.formulae.len(),
        flattened(old, f, f),
    ensures
        flattened(new, f, f),
{
    assert(old.formula_ok(old.formulae[f as int], f as int));
    match old.formulae[f as int] {
        FormulaView::And(ps) => {
            lemma_lifted_kept(old, new, ps);
        },
        FormulaView::Or(ps) => {
            lemma_lifted_kept(old, new, ps);
        },
        _ => {},
    }
}

/// A formula that the other rewrites leave as it is in a store is left as it
/// is in every store that extends it.
pub proof fn lemma_trivialised_kept(old: StoreView, new: StoreView, f: Id)
    requires
        old.wf(),
        new.extends(old),
        f < old.formulae.len(),
    ensures
        trivialised(old, f, f) ==> trivialised(new, f, f),
        equation_trivialised(old, f, f) ==> equation_trivialised(new, f, f),
        unnegated(old, f, f) ==> unnegated(new, f, f),
{
    assert(old.formula_ok(old.formulae[f as int], f as int));
}

/// A normal formula of a store is normal in every store that extends it.
pub proof fn lemma_normal_extends(old: StoreView, new: StoreView, f: Id)
    requires
        old.wf(),
        new.wf(),
        new.extends(old),
        is_normal(old, f),
    ensures
        is_normal(new, f),
    decreases f,
{
    lemma_propagated_kept(old, new, f);
    lemma_contradicted_kept(old, new, f);
    lemma_combined_kept(old, new, f, true);
    lemma_combined_kept(old, new, f, false);
    lemma_implications_kept(old, new, f);
    lemma_flattened_kept(old, new, f);
    lemma_trivialised_kept(old, new, f);
    lemma_vacuous_extends(old, new, f);
    assert(new.formulae[f as int] == old.formulae[f as int]);
    match old.formulae[f as int] {
        FormulaView::Not(p) => {
            lemma_normal_extends(old, new, p);
        },
        FormulaView::All(p) => {
            lemma_normal_extends(old, new, p);
        },
        FormulaView::Ex(p) => {
            lemma_normal_extends(old, new, p);
        },
        FormulaView::Imp(p, q) => {
            lemma_normal_extends(old, new, p);
            lemma_normal_extends(old, new, q);
        },
        FormulaView::Or(ps) => {
            assert forall|i: int| 0 <= i < ps.len() implies (#[trigger] ps[i]) < f && is_normal(
                new,
                ps[i],
            ) by {
                lemma_normal_extends(old, new, ps[i]);
            }
        },
        FormulaView::And(ps) => {
            assert forall|i: int| 0 <= i < ps.len() implies (#[trigger] ps[i]) < f && is_normal(
                new,
                ps[i],
            ) by {
                lemma_normal_extends(old, new, ps[i]);
            }
        },
        FormulaView::Eqv(ps) => {
            assert forall|i: int| 0 <= i < ps.len() implies (#[trigger] ps[i]) < f && is_normal(
                new,
                ps[i],
            ) by {
                lemma_normal_extends(old, new, ps[i]);
            }
        },
        _ => {},
    }
}

/// A formula is normal exactly if no rewrite changes it at its top and the
/// formulae directly below are normal.
pub proof fn lemma_normal_parts(s: StoreView, f: Id)
    ensures
        is_normal(s, f) <==> (f < s.formulae.len() && root_normal(s, f) && parts_normal(s, f)),
{
}

/// What the rewrites leave as it is at its top in a store, they leave as it
/// is in every store that extends it.
pub proof fn lemma_root_normal_extends(old: StoreView, new: StoreView, f: Id)
    requires
        old.wf(),
        new.wf(),
        new.extends(old),
        f < old.formulae.len(),
    ensures
        propositionally_normal(old, f) ==> propositionally_normal(new, f),
        equationally_normal(old, f) ==> equationally_normal(new, f),
{
    lemma_trivialised_kept(old, new, f);
    if propositionally_normal(old, f) {
        lemma_propagated_kept(old, new, f);
        lemma_contradicted_kept(old, new, f);
        lemma_combined_kept(old, new, f, true);
        lemma_implications_kept(old, new, f);
        lemma_flattened_kept(old, new, f);
    }
    if equationally_normal(old, f) {
        lemma_combined_kept(old, new, f, false);
    }
}

/// Where the parts of a formula are normal in a store, they are normal in
/// every store that extends it.
pub proof fn lemma_parts_normal_extends(old: StoreView, new: StoreView, f: Id)
    requires
        old.wf(),
        new.wf(),
        new.extends(old),
        f < old.formulae.len(),
        parts_normal(old, f),
    ensures
        parts_normal(new, f),
{
    assert(new.formulae[f as int] == old.formulae[f as int]);
    match old.formulae[f as int] {
        FormulaView::Not(p) => {
            lemma_normal_extends(old, new, p);
        },
        FormulaView::All(p) => {
            lemma_normal_extends(old, new, p);
        },
        FormulaView::Ex(p) => {
            lemma_normal_extends(old, new, p);
        },
        FormulaView::Imp(p, q) => {
            lemma_normal_extends(old, new, p);
            lemma_normal_extends(old, new, q);
        },
        FormulaView::Or(ps) => {
            assert forall|i: int| 0 <= i < ps.len() implies (#[trigger] ps[i]) < f && is_normal(
                new,
                ps[i],
            ) by {
                lemma_normal_extends(old, new, ps[i]);
            }
        },
        FormulaView::And(ps) => {
            assert forall|i: int| 0 <= i < ps.len() implies (#[trigger] ps[i]) < f && is_normal(
                new,
                ps[i],
            ) by {
                lemma_normal_extends(old, new, ps[i]);
            }
        },
        FormulaView::Eqv(ps) => {
            assert forall|i: int| 0 <= i < ps.len() implies (#[trigger] ps[i]) < f && is_normal(
                new,
                ps[i],
            ) by {
                lemma_normal_extends(old, new, ps[i]);
            }
        },
        _ => {},
    }
}

} // verus!
