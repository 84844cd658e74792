//! The formulae on which the simplifier keeps the truth value.
//!
//! Two rewrites change the meaning of what they are given: an equivalence
//! class loses the constant `T`, and an implication between a formula and
//! its negation becomes `F`. A propositional formula is tame when neither
//! can meet it: no member of an equivalence class in it can become `T`, and
//! the two sides of no implication in it can become a formula and its
//! negation.

use crate::collections::{combined, lemma_combined_members, Id};
use crate::formula::FormulaView;
use crate::semantics::lemma_holds_extends;
use crate::simplification::classes::{
    class_among,
    classes_combined,
    eqv_class_of,
    eqv_classes,
    lemma_classes_ascending,
    lemma_classes_from_members,
    member_combined,
    member_eq_class,
    member_kept,
};
use crate::simplification::equational::equation_trivialised;
use crate::simplification::lighter::lemma_members_valid;
use crate::simplification::normal::{
    is_normal, lemma_normal_extends, lemma_normal_parts, lemma_parts_normal_extends,
    parts_normal,
};
use crate::simplification::propositional::{
    contradicted, first_paired, flattened, has_false, has_true, implications_combined, is_and,
    is_paired, member_folded, member_lifted_and, member_lifted_or, member_negated,
    member_not_false, member_not_true, pair_of, propagated, trivialised, unnegated,
};
use crate::simplification::sound::{
    all_hold, classes_present, drops_member, lemma_combined_holds, lemma_contradicted_holds,
    lemma_flattened_holds, lemma_holds, lemma_implications_holds, lemma_no_eq_classes,
    lemma_propagated_holds, lemma_trivialised_holds, lemma_unnegated_holds, negations_present,
    no_equations, pairs_present, self_denying, some_holds, uniform,
};
use crate::store::StoreView;
use vstd::prelude::*;

verus! {

/// Whether `a` and `b` have the same truth value under every assignment.
pub open spec fn agrees(s: StoreView, a: Id, b: Id) -> bool {
    forall|atoms: spec_fn(Id) -> bool| #[trigger] s.holds(a, atoms) == s.holds(b, atoms)
}

/// Whether `m` is false under some assignment.
pub open spec fn falsifiable(s: StoreView, m: Id) -> bool {
    exists|atoms: spec_fn(Id) -> bool| !#[trigger] s.holds(m, atoms)
}

/// Whether `p` and `q` have the same truth value under some assignment.
pub open spec fn compatible(s: StoreView, p: Id, q: Id) -> bool {
    exists|atoms: spec_fn(Id) -> bool| #[trigger] s.holds(p, atoms) == s.holds(q, atoms)
}

/// Whether `m` cannot become the constant `T`: it is normal and not that
/// constant, or it is false under some assignment.
pub open spec fn steady(s: StoreView, m: Id) -> bool {
    (is_normal(s, m) && !s.is(m, FormulaView::T)) || falsifiable(s, m)
}

/// Whether `p` and `q` cannot become a formula and its negation: they are
/// normal and neither is the negation of the other, or they have the same
/// truth value under some assignment.
pub open spec fn apart(s: StoreView, p: Id, q: Id) -> bool {
    (is_normal(s, p) && is_normal(s, q) && !s.is(p, FormulaView::Not(q)) && !s.is(
        q,
        FormulaView::Not(p),
    )) || compatible(s, p, q)
}

/// Whether `f` is a propositional formula in which every member of an
/// equivalence class is steady and the two sides of every implication are
/// apart.
pub open spec fn tame(s: StoreView, f: Id) -> bool
    decreases f,
{
    f < s.formulae.len() && match s.formulae[f as int] {
        FormulaView::T => true,
        FormulaView::F => true,
        FormulaView::Prd(_, _) => true,
        FormulaView::Eq(_) => false,
        FormulaView::All(_) => false,
        FormulaView::Ex(_) => false,
        FormulaView::Not(p) => p < f && tame(s, p),
        FormulaView::Imp(p, q) => p < f && q < f && tame(s, p) && tame(s, q) && apart(s, p, q),
        FormulaView::Or(ps) => forall|i: int|
            0 <= i < ps.len() ==> (#[trigger] ps[i]) < f && tame(s, ps[i]),
        FormulaView::And(ps) => forall|i: int|
            0 <= i < ps.len() ==> (#[trigger] ps[i]) < f && tame(s, ps[i]),
        FormulaView::Eqv(ps) => forall|i: int|
            0 <= i < ps.len() ==> (#[trigger] ps[i]) < f && tame(s, ps[i]) && steady(s, ps[i]),
    }
}

/// Whether every member of `ps` is tame.
pub open spec fn all_tame(s: StoreView, ps: Seq<Id>) -> bool {
    forall|x: Id| #[trigger] ps.contains(x) ==> tame(s, x)
}

/// Whether every member of `ps` is steady.
pub open spec fn all_steady(s: StoreView, ps: Seq<Id>) -> bool {
    forall|x: Id| #[trigger] ps.contains(x) ==> steady(s, x)
}

/// What it is for a stored formula to be tame, in terms of its members.
pub proof fn lemma_tame(s: StoreView, f: Id)
    requires
        s.wf(),
        f < s.formulae.len(),
    ensures
        match s.formulae[f as int] {
            FormulaView::Or(ps) => tame(s, f) == all_tame(s, ps),
            FormulaView::And(ps) => tame(s, f) == all_tame(s, ps),
            FormulaView::Eqv(ps) => tame(s, f) == (all_tame(s, ps) && all_steady(s, ps)),
            FormulaView::Not(p) => tame(s, f) == tame(s, p),
            FormulaView::Imp(p, q) => tame(s, f) == (tame(s, p) && tame(s, q) && apart(s, p, q)),
            _ => true,
        },
{
    assert(s.formula_ok(s.formulae[f as int], f as int));
    match s.formulae[f as int] {
        FormulaView::Or(ps) => {
            lemma_members_valid(s, f, ps);
            lemma_members(s, f, ps);
        },
        FormulaView::And(ps) => {
            lemma_members_valid(s, f, ps);
            lemma_members(s, f, ps);
        },
        FormulaView::Eqv(ps) => {
            lemma_members_valid(s, f, ps);
            lemma_members(s, f, ps);
        },
        _ => {},
    }
}

/// What holds of every member of `ps` by position holds of it by
/// membership, and the other way round.
proof fn lemma_members(s: StoreView, f: Id, ps: Seq<Id>)
    requires
        forall|x: Id| ps.contains(x) ==> x < f,
    ensures
        all_tame(s, ps) == (forall|i: int|
            0 <= i < ps.len() ==> (#[trigger] ps[i]) < f && tame(s, ps[i])),
        (all_tame(s, ps) && all_steady(s, ps)) == (forall|i: int|
            0 <= i < ps.len() ==> (#[trigger] ps[i]) < f && tame(s, ps[i]) && steady(s, ps[i])),
{
    if all_tame(s, ps) {
        assert forall|i: int| 0 <= i < ps.len() implies (#[trigger] ps[i]) < f && tame(
            s,
            ps[i],
        ) by {
            assert(ps.contains(ps[i]));
        }
    }
    if all_tame(s, ps) && all_steady(s, ps) {
        assert forall|i: int| 0 <= i < ps.len() implies (#[trigger] ps[i]) < f && tame(s, ps[i])
            && steady(s, ps[i]) by {
            assert(ps.contains(ps[i]));
        }
    }
    if forall|i: int| 0 <= i < ps.len() ==> (#[trigger] ps[i]) < f && tame(s, ps[i]) {
        assert forall|x: Id| #[trigger] ps.contains(x) implies tame(s, x) by {
            let i = choose|i: int| 0 <= i < ps.len() && ps[i] == x;
            assert(ps[i] < f);
        }
    }
    if forall|i: int|
        0 <= i < ps.len() ==> (#[trigger] ps[i]) < f && tame(s, ps[i]) && steady(s, ps[i]) {
        assert forall|x: Id| #[trigger] ps.contains(x) implies tame(s, x) && steady(s, x) by {
            let i = choose|i: int| 0 <= i < ps.len() && ps[i] == x;
            assert(ps[i] < f);
        }
    }
}

/// Two formulae that agree in a store agree in every store that extends
/// it.
pub proof fn lemma_agrees_extends(old: StoreView, new: StoreView, a: Id, b: Id)
    requires
        new.extends(old),
        a < old.formulae.len(),
        b < old.formulae.len(),
    ensures
        agrees(new, a, b) == agrees(old, a, b),
{
    assert forall|atoms: spec_fn(Id) -> bool|
        (#[trigger] new.holds(a, atoms) == new.holds(b, atoms)) == (old.holds(a, atoms)
            == old.holds(b, atoms)) by {
        lemma_holds_extends(old, new, a, atoms);
        lemma_holds_extends(old, new, b, atoms);
    }
    if agrees(old, a, b) {
        assert forall|atoms: spec_fn(Id) -> bool| #[trigger]
            new.holds(a, atoms) == new.holds(b, atoms) by {
            lemma_holds_extends(old, new, a, atoms);
            lemma_holds_extends(old, new, b, atoms);
            assert(old.holds(a, atoms) == old.holds(b, atoms));
        }
    }
    if agrees(new, a, b) {
        assert forall|atoms: spec_fn(Id) -> bool| #[trigger]
            old.holds(a, atoms) == old.holds(b, atoms) by {
            lemma_holds_extends(old, new, a, atoms);
            lemma_holds_extends(old, new, b, atoms);
            assert(new.holds(a, atoms) == new.holds(b, atoms));
        }
    }
}

/// A steady formula of a store is steady in every store that extends it.
pub proof fn lemma_steady_extends(old: StoreView, new: StoreView, m: Id)
    requires
        old.wf(),
        new.wf(),
        new.extends(old),
        m < old.formulae.len(),
        steady(old, m),
    ensures
        steady(new, m),
{
    if is_normal(old, m) && !old.is(m, FormulaView::T) {
        lemma_normal_extends(old, new, m);
    } else {
        let atoms = choose|atoms: spec_fn(Id) -> bool| !#[trigger] old.holds(m, atoms);
        lemma_holds_extends(old, new, m, atoms);
        assert(!new.holds(m, atoms));
    }
}

/// Two formulae that are apart in a store are apart in every store that
/// extends it.
pub proof fn lemma_apart_extends(old: StoreView, new: StoreView, p: Id, q: Id)
    requires
        old.wf(),
        new.wf(),
        new.extends(old),
        p < old.formulae.len(),
        q < old.formulae.len(),
        apart(old, p, q),
    ensures
        apart(new, p, q),
{
    if is_normal(old, p) && is_normal(old, q) && !old.is(p, FormulaView::Not(q)) && !old.is(
        q,
        FormulaView::Not(p),
    ) {
        lemma_normal_extends(old, new, p);
        lemma_normal_extends(old, new, q);
    } else {
        let atoms = choose|atoms: spec_fn(Id) -> bool| #[trigger]
            old.holds(p, atoms) == old.holds(q, atoms);
        lemma_holds_extends(old, new, p, atoms);
        lemma_holds_extends(old, new, q, atoms);
        assert(new.holds(p, atoms) == new.holds(q, atoms));
    }
}

/// A tame formula of a store is tame in every store that extends it.
pub proof fn lemma_tame_extends(old: StoreView, new: StoreView, f: Id)
    requires
        old.wf(),
        new.wf(),
        new.extends(old),
        tame(old, f),
    ensures
        tame(new, f),
    decreases f,
{
    assert(new.formulae[f as int] == old.formulae[f as int]);
    match old.formulae[f as int] {
        FormulaView::Not(p) => {
            lemma_tame_extends(old, new, p);
        },
        FormulaView::Imp(p, q) => {
            lemma_tame_extends(old, new, p);
            lemma_tame_extends(old, new, q);
            lemma_apart_extends(old, new, p, q);
        },
        FormulaView::Or(ps) => {
            assert forall|i: int| 0 <= i < ps.len() implies (#[trigger] ps[i]) < f && tame(
                new,
                ps[i],
            ) by {
                lemma_tame_extends(old, new, ps[i]);
            }
        },
        FormulaView::And(ps) => {
            assert forall|i: int| 0 <= i < ps.len() implies (#[trigger] ps[i]) < f && tame(
                new,
                ps[i],
            ) by {
                lemma_tame_extends(old, new, ps[i]);
            }
        },
        FormulaView::Eqv(ps) => {
            assert forall|i: int| 0 <= i < ps.len() implies (#[trigger] ps[i]) < f && tame(
                new,
                ps[i],
            ) && steady(new, ps[i]) by {
                lemma_tame_extends(old, new, ps[i]);
                lemma_steady_extends(old, new, ps[i]);
            }
        },
        _ => {},
    }
}

/// Whether the implications among the members of the conjunction `c` are
/// normal.
pub open spec fn implications_normal(s: StoreView, c: Id) -> bool {
    match s.formulae[c as int] {
        FormulaView::And(ps) => forall|z: Id| #[trigger]
            ps.contains(z) && s.formulae[z as int] is Imp ==> is_normal(s, z),
        _ => true,
    }
}

/// The constant `T` is not steady.
pub proof fn lemma_true_unsteady(s: StoreView, z: Id)
    requires
        s.wf(),
        s.is(z, FormulaView::T),
    ensures
        !steady(s, z),
{
    assert forall|atoms: spec_fn(Id) -> bool| #[trigger] s.holds(z, atoms) by {
        lemma_holds(s, z, atoms);
    }
}

/// A formula and its negation are not apart.
pub proof fn lemma_negation_close(s: StoreView, p: Id, q: Id)
    requires
        s.wf(),
        q < s.formulae.len(),
        s.is(p, FormulaView::Not(q)),
    ensures
        !apart(s, p, q),
        !apart(s, q, p),
{
    assert forall|atoms: spec_fn(Id) -> bool| #[trigger]
        s.holds(p, atoms) != s.holds(q, atoms) by {
        lemma_holds(s, p, atoms);
    }
    assert forall|atoms: spec_fn(Id) -> bool| #[trigger]
        s.holds(q, atoms) != s.holds(p, atoms) by {
        lemma_holds(s, p, atoms);
    }
}

/// A tame formula whose parts are normal is one on which boolean
/// propagation and the search for contradictions keep the truth value.
pub proof fn lemma_ready(s: StoreView, x: Id)
    requires
        s.wf(),
        tame(s, x),
        parts_normal(s, x),
    ensures
        !drops_member(s, x),
        !self_denying(s, x),
        implications_normal(s, x),
        no_equations(s, x),
{
    lemma_tame(s, x);
    assert(s.formula_ok(s.formulae[x as int], x as int));
    match s.formulae[x as int] {
        FormulaView::Eqv(ps) => {
            if has_true(s, ps) {
                let z = choose|z: Id| ps.contains(z) && s.is(z, FormulaView::T);
                lemma_true_unsteady(s, z);
                assert(steady(s, z));
            }
        },
        FormulaView::Imp(p, q) => {
            if s.is(p, FormulaView::Not(q)) {
                lemma_negation_close(s, p, q);
            }
            if s.is(q, FormulaView::Not(p)) {
                lemma_negation_close(s, q, p);
            }
        },
        FormulaView::And(ps) => {
            assert forall|z: Id| #[trigger]
                ps.contains(z) && s.formulae[z as int] is Imp implies is_normal(s, z) by {
                let i = choose|i: int| 0 <= i < ps.len() && ps[i] == z;
                assert(is_normal(s, ps[i]));
            }
            lemma_no_equations(s, x);
        },
        _ => {},
    }
}

/// No member of a tame conjunction is an equation.
pub proof fn lemma_no_equations(s: StoreView, x: Id)
    requires
        s.wf(),
        tame(s, x),
    ensures
        no_equations(s, x),
{
    lemma_tame(s, x);
    match s.formulae[x as int] {
        FormulaView::And(ps) => {
            assert forall|z: Id| #[trigger] ps.contains(z) implies !(s.formulae[z as int] is Eq) by {
                assert(tame(s, z));
            }
        },
        _ => {},
    }
}

/// A normal implication is not between a formula and its negation, and
/// neither of its sides is a constant.
pub proof fn lemma_normal_implication(s: StoreView, a: Id)
    requires
        s.wf(),
        is_normal(s, a),
        s.formulae[a as int] is Imp,
    ensures
        !self_denying(s, a),
        is_normal(s, s.formulae[a as int]->Imp_0),
        is_normal(s, s.formulae[a as int]->Imp_1),
        !s.is(s.formulae[a as int]->Imp_0, FormulaView::T),
        !s.is(s.formulae[a as int]->Imp_1, FormulaView::T),
{
}

/// Boolean propagation makes a tame formula of a tame formula whose parts
/// are normal.
pub proof fn lemma_propagated_tame(s: StoreView, x: Id, y: Id)
    requires
        s.wf(),
        y < s.formulae.len(),
        tame(s, x),
        parts_normal(s, x),
        propagated(s, x, y),
    ensures
        tame(s, y),
        implications_normal(s, y),
        !self_denying(s, y),
{
    lemma_ready(s, x);
    lemma_tame(s, x);
    lemma_tame(s, y);
    assert(s.formula_ok(s.formulae[x as int], x as int));
    match s.formulae[x as int] {
        FormulaView::Not(p) => {},
        FormulaView::Imp(p, q) => {
            if y == q {
                lemma_normal_parts(s, q);
                if s.formulae[q as int] is Imp {
                    lemma_normal_implication(s, q);
                }
                match s.formulae[q as int] {
                    FormulaView::And(zs) => {
                        assert forall|z: Id| #[trigger]
                            zs.contains(z) && s.formulae[z as int] is Imp implies is_normal(
                            s,
                            z,
                        ) by {
                            let i = choose|i: int| 0 <= i < zs.len() && zs[i] == z;
                            assert(is_normal(s, zs[i]));
                        }
                    },
                    _ => {},
                }
            }
        },
        FormulaView::And(ps) => {
            if !has_false(s, ps) {
                let qs = s.formulae[y as int]->And_0;
                assert forall|z: Id| #[trigger] qs.contains(z) implies tame(s, z) && ps.contains(
                    z,
                ) by {
                    assert(member_not_true(s, ps, z));
                }
            }
        },
        FormulaView::Or(ps) => {
            if !has_true(s, ps) {
                let qs = s.formulae[y as int]->Or_0;
                assert forall|z: Id| #[trigger] qs.contains(z) implies tame(s, z) by {
                    assert(member_not_false(s, ps, z));
                }
            }
        },
        FormulaView::Eqv(ps) => {
            if has_false(s, ps) {
                let qs = s.formulae[y as int]->And_0;
                assert forall|z: Id| #[trigger] qs.contains(z) implies tame(s, z) && !(
                s.formulae[z as int] is Imp) by {
                    assert(member_negated(s, ps, z));
                    let m = choose|m: Id| ps.contains(m) && s.is(z, FormulaView::Not(m));
                    lemma_tame(s, z);
                }
            } else {
                let qs = s.formulae[y as int]->Eqv_0;
                assert forall|z: Id| #[trigger] qs.contains(z) implies tame(s, z) && steady(
                    s,
                    z,
                ) by {
                    assert(member_not_true(s, ps, z));
                }
            }
        },
        _ => {},
    }
}

/// The search for contradictions makes a tame formula of a tame formula.
pub proof fn lemma_contradicted_tame(s: StoreView, x: Id, y: Id)
    requires
        s.wf(),
        y < s.formulae.len(),
        tame(s, x),
        implications_normal(s, x),
        contradicted(s, x, y),
    ensures
        tame(s, y),
        implications_normal(s, y),
{
}

/// The merging of classes makes a tame formula of a tame formula.
pub proof fn lemma_combined_tame(s: StoreView, x: Id, y: Id, equivalences: bool)
    requires
        s.wf(),
        y < s.formulae.len(),
        tame(s, x),
        implications_normal(s, x),
        classes_combined(s, x, y, equivalences),
    ensures
        tame(s, y),
        implications_normal(s, y),
{
    lemma_tame(s, x);
    lemma_tame(s, y);
    match s.formulae[x as int] {
        FormulaView::And(ps) => {
            lemma_members_valid(s, x, ps);
            lemma_no_equations(s, x);
            lemma_no_eq_classes(s, ps);
            let qs = s.formulae[y as int]->And_0;
            let classes = eqv_classes(s, ps);
            let merged = combined(classes);
            assert forall|i: int| 0 <= i < ps.len() implies ps[i] < s.formulae.len() by {
                assert(ps.contains(ps[i]));
            }
            lemma_classes_ascending(s, ps);
            lemma_classes_from_members(s, ps);
            lemma_combined_members(classes);
            assert forall|q: Id| #[trigger] qs.contains(q) implies tame(s, q) && (
            s.formulae[q as int] is Imp ==> is_normal(s, q)) by {
                assert(member_combined(s, ps, q, equivalences));
                if member_kept(s, ps, q, equivalences) {
                } else if member_eq_class(s, ps, q) {
                } else {
                    let k = choose|k: int|
                        0 <= k < merged.len() && #[trigger] merged[k] == eqv_class_of(s, q);
                    let cls = merged[k];
                    lemma_tame(s, q);
                    assert forall|z: Id| #[trigger] cls.contains(z) implies tame(s, z) && steady(
                        s,
                        z,
                    ) by {
                        assert(merged[k].contains(z));
                        let i = choose|i: int|
                            0 <= i < classes.len() && #[trigger] classes[i].contains(z);
                        assert(class_among(s, ps, classes[i], true));
                        let m = choose|m: Id|
                            ps.contains(m) && s.formulae[m as int] is Eqv && eqv_class_of(s, m)
                                == classes[i];
                        assert(tame(s, m));
                        lemma_tame(s, m);
                    }
                }
            }
        },
        _ => {},
    }
}

/// The pairing of implications makes a tame formula of a tame formula
/// whose implications are normal.
pub proof fn lemma_implications_tame(s: StoreView, x: Id, y: Id)
    requires
        s.wf(),
        y < s.formulae.len(),
        tame(s, x),
        implications_normal(s, x),
        implications_combined(s, x, y),
    ensures
        tame(s, y),
{
    lemma_tame(s, x);
    lemma_tame(s, y);
    match s.formulae[x as int] {
        FormulaView::And(ps) => {
            lemma_members_valid(s, x, ps);
            if exists|i: int| first_paired(s, ps, i) {
                let i = choose|i: int|
                    first_paired(s, ps, i) && is_and(s, y, |z: Id| member_folded(s, ps, ps[i], z));
                let a = ps[i];
                assert(ps.contains(a));
                assert(is_paired(s, ps, a));
                let qs = s.formulae[y as int]->And_0;
                let l = s.formulae[a as int]->Imp_0;
                let r = s.formulae[a as int]->Imp_1;
                assert(s.formulae[a as int] == FormulaView::Imp(l, r));
                assert(is_normal(s, a));
                lemma_normal_implication(s, a);
                assert(tame(s, a));
                lemma_tame(s, a);
                let pair = pair_of(l, r);
                assert forall|z: Id| #[trigger] pair.contains(z) implies z == l || z == r by {
                    let k = choose|k: int| 0 <= k < pair.len() && pair[k] == z;
                }
                assert forall|q: Id| #[trigger] qs.contains(q) implies tame(s, q) by {
                    assert(member_folded(s, ps, a, q));
                    if !(ps.contains(q) && q != a && !s.is(q, FormulaView::Imp(r, l))) {
                        assert(s.is(q, FormulaView::Eqv(pair)));
                        lemma_tame(s, q);
                    }
                }
            }
        },
        _ => {},
    }
}

/// The removal of a double negation makes a tame formula of a tame
/// formula.
pub proof fn lemma_unnegated_tame(s: StoreView, x: Id, y: Id)
    requires
        s.wf(),
        tame(s, x),
        unnegated(s, x, y),
    ensures
        tame(s, y),
{
    match s.formulae[x as int] {
        FormulaView::Not(p) => {
            assert(tame(s, p));
            match s.formulae[p as int] {
                FormulaView::Not(q) => {
                    assert(tame(s, q));
                },
                _ => {},
            }
        },
        _ => {},
    }
}

/// Flattening makes a tame formula of a tame formula.
pub proof fn lemma_flattened_tame(s: StoreView, x: Id, y: Id)
    requires
        s.wf(),
        y < s.formulae.len(),
        tame(s, x),
        flattened(s, x, y),
    ensures
        tame(s, y),
{
    lemma_tame(s, x);
    lemma_tame(s, y);
    match s.formulae[x as int] {
        FormulaView::And(ps) => {
            lemma_members_valid(s, x, ps);
            let qs = s.formulae[y as int]->And_0;
            assert forall|z: Id| #[trigger] qs.contains(z) implies tame(s, z) by {
                assert(member_lifted_and(s, ps, z));
                if !(ps.contains(z) && !(s.formulae[z as int] is And)) {
                    let m = choose|m: Id|
                        ps.contains(m) && (match s.formulae[m as int] {
                            FormulaView::And(zs) => zs.contains(z),
                            _ => false,
                        });
                    assert(tame(s, m));
                    lemma_tame(s, m);
                }
            }
        },
        FormulaView::Or(ps) => {
            lemma_members_valid(s, x, ps);
            let qs = s.formulae[y as int]->Or_0;
            assert forall|z: Id| #[trigger] qs.contains(z) implies tame(s, z) by {
                assert(member_lifted_or(s, ps, z));
                if !(ps.contains(z) && !(s.formulae[z as int] is Or)) {
                    let m = choose|m: Id|
                        ps.contains(m) && (match s.formulae[m as int] {
                            FormulaView::Or(zs) => zs.contains(z),
                            _ => false,
                        });
                    assert(tame(s, m));
                    lemma_tame(s, m);
                }
            }
        },
        _ => {},
    }
}

/// The rewriting of a connective with too few members makes a tame formula
/// of a tame formula.
pub proof fn lemma_trivialised_tame(s: StoreView, x: Id, y: Id)
    requires
        s.wf(),
        y < s.formulae.len(),
        tame(s, x),
        trivialised(s, x, y),
    ensures
        tame(s, y),
{
}

/// Whether `q` is a tame formula that agrees with `p`.
pub open spec fn kept_meaning(s: StoreView, p: Id, q: Id) -> bool {
    tame(s, q) && agrees(s, p, q)
}

/// Whether `q` is a tame formula that agrees with `p`, if `p` was tame in
/// the store `before`.
pub open spec fn keeps(before: StoreView, s: StoreView, p: Id, q: Id) -> bool {
    tame(before, p) ==> kept_meaning(s, p, q)
}

/// What was kept in a store is kept in every store that extends it.
pub proof fn lemma_kept_extends(old: StoreView, new: StoreView, p: Id, q: Id)
    requires
        old.wf(),
        new.wf(),
        new.extends(old),
        p < old.formulae.len(),
        kept_meaning(old, p, q),
    ensures
        kept_meaning(new, p, q),
{
    lemma_tame_extends(old, new, q);
    lemma_agrees_extends(old, new, p, q);
}

/// A formula that agrees with a second, which agrees with a third, agrees
/// with the third.
pub proof fn lemma_agrees_trans(s: StoreView, a: Id, b: Id, c: Id)
    requires
        agrees(s, a, b),
        agrees(s, b, c),
    ensures
        agrees(s, a, c),
{
    assert forall|atoms: spec_fn(Id) -> bool| #[trigger] s.holds(a, atoms) == s.holds(
        c,
        atoms,
    ) by {
        assert(s.holds(a, atoms) == s.holds(b, atoms));
        assert(s.holds(b, atoms) == s.holds(c, atoms));
    }
}

/// The negation of the simplified body is tame and agrees with the
/// negation.
pub proof fn lemma_body_sound(
    before: StoreView,
    m: StoreView,
    s: StoreView,
    f: Id,
    r: Id,
    p: Id,
    q: Id,
)
    requires
        before.wf(),
        m.wf(),
        s.wf(),
        m.extends(before),
        s.extends(m),
        before.is(f, FormulaView::Not(p)),
        s.is(r, FormulaView::Not(q)),
        tame(before, f),
        keeps(before, m, p, q),
    ensures
        tame(s, r),
        agrees(s, f, r),
{
    assert(before.formula_ok(before.formulae[f as int], f as int));
    assert(s.formula_ok(s.formulae[r as int], r as int));
    assert(tame(before, p));
    lemma_kept_extends(m, s, p, q);
    assert forall|atoms: spec_fn(Id) -> bool| #[trigger] s.holds(f, atoms) == s.holds(
        r,
        atoms,
    ) by {
        lemma_holds(s, f, atoms);
        lemma_holds(s, r, atoms);
        assert(s.holds(p, atoms) == s.holds(q, atoms));
    }
}

/// The implication between the simplified sides is tame and agrees with
/// the implication.
pub proof fn lemma_sides_sound(
    before: StoreView,
    m1: StoreView,
    m2: StoreView,
    s: StoreView,
    f: Id,
    r: Id,
    p: Id,
    q: Id,
    a: Id,
    b: Id,
)
    requires
        before.wf(),
        m1.wf(),
        m2.wf(),
        s.wf(),
        m1.extends(before),
        m2.extends(m1),
        s.extends(m2),
        before.is(f, FormulaView::Imp(p, q)),
        s.is(r, FormulaView::Imp(a, b)),
        tame(before, f),
        keeps(before, m1, p, a),
        keeps(m1, m2, q, b),
        is_normal(m1, a),
        is_normal(m2, b),
        is_normal(before, p) ==> a == p,
        is_normal(m1, q) ==> b == q,
    ensures
        tame(s, r),
        agrees(s, f, r),
{
    assert(before.formula_ok(before.formulae[f as int], f as int));
    assert(s.formula_ok(s.formulae[r as int], r as int));
    assert(tame(before, p) && tame(before, q) && apart(before, p, q));
    lemma_tame_extends(before, m1, q);
    lemma_kept_extends(m1, m2, p, a);
    lemma_kept_extends(m2, s, p, a);
    lemma_kept_extends(m2, s, q, b);
    lemma_normal_extends(m1, m2, a);
    lemma_normal_extends(m2, s, a);
    lemma_normal_extends(m2, s, b);
    assert forall|atoms: spec_fn(Id) -> bool| #[trigger] s.holds(f, atoms) == s.holds(
        r,
        atoms,
    ) by {
        lemma_holds(s, f, atoms);
        lemma_holds(s, r, atoms);
        assert(s.holds(p, atoms) == s.holds(a, atoms));
        assert(s.holds(q, atoms) == s.holds(b, atoms));
    }
    if is_normal(before, p) && is_normal(before, q) && !before.is(p, FormulaView::Not(q))
        && !before.is(q, FormulaView::Not(p)) {
        lemma_normal_extends(before, m1, q);
        assert(a == p && b == q);
        assert(!s.is(a, FormulaView::Not(b)));
        assert(!s.is(b, FormulaView::Not(a)));
    } else {
        let atoms = choose|atoms: spec_fn(Id) -> bool| #[trigger]
            before.holds(p, atoms) == before.holds(q, atoms);
        lemma_holds_extends(before, s, p, atoms);
        lemma_holds_extends(before, s, q, atoms);
        assert(s.holds(p, atoms) == s.holds(a, atoms));
        assert(s.holds(q, atoms) == s.holds(b, atoms));
        assert(s.holds(a, atoms) == s.holds(b, atoms));
    }
    assert(apart(s, a, b));
}

/// Whether `f` and `r` are connectives of the same kind, with the members
/// `ps` and `qs`.
pub open spec fn same_connective(f: FormulaView, r: FormulaView, ps: Seq<Id>, qs: Seq<Id>) -> bool {
    ||| f == FormulaView::And(ps) && r == FormulaView::And(qs)
    ||| f == FormulaView::Or(ps) && r == FormulaView::Or(qs)
    ||| f == FormulaView::Eqv(ps) && r == FormulaView::Eqv(qs)
}

/// The connective of the simplified members is tame and agrees with the
/// connective.
pub proof fn lemma_members_sound(
    before: StoreView,
    m: StoreView,
    s: StoreView,
    f: Id,
    r: Id,
    ps: Seq<Id>,
    qs: Seq<Id>,
    to: Map<Id, Id>,
)
    requires
        before.wf(),
        m.wf(),
        s.wf(),
        m.extends(before),
        s.extends(m),
        f < before.formulae.len(),
        r < s.formulae.len(),
        same_connective(before.formulae[f as int], s.formulae[r as int], ps, qs),
        tame(before, f),
        forall|z: Id| qs.contains(z) <==> exists|p: Id| ps.contains(p) && to[p] == z,
        forall|p: Id| ps.contains(p) ==> keeps(before, m, p, #[trigger] to[p]),
        forall|p: Id| ps.contains(p) ==> is_normal(m, #[trigger] to[p]),
        forall|p: Id| ps.contains(p) && is_normal(before, p) ==> #[trigger] to[p] == p,
    ensures
        tame(s, r),
        agrees(s, f, r),
{
    lemma_members_valid(before, f, ps);
    lemma_tame(before, f);
    lemma_tame(s, r);
    assert forall|p: Id| #[trigger] ps.contains(p) implies kept_meaning(s, p, to[p]) by {
        assert(tame(before, p));
        assert(keeps(before, m, p, to[p]));
        lemma_kept_extends(m, s, p, to[p]);
    }
    assert forall|z: Id| #[trigger] qs.contains(z) implies tame(s, z) by {
        let p = choose|p: Id| ps.contains(p) && to[p] == z;
        assert(kept_meaning(s, p, to[p]));
    }
    if before.formulae[f as int] is Eqv {
        assert forall|z: Id| #[trigger] qs.contains(z) implies steady(s, z) by {
            let p = choose|p: Id| ps.contains(p) && to[p] == z;
            assert(kept_meaning(s, p, to[p]));
            assert(steady(before, p));
            if is_normal(before, p) && !before.is(p, FormulaView::T) {
                assert(to[p] == p);
                lemma_normal_extends(before, s, p);
            } else {
                let atoms = choose|atoms: spec_fn(Id) -> bool| !#[trigger] before.holds(p, atoms);
                lemma_holds_extends(before, s, p, atoms);
                assert(s.holds(p, atoms) == s.holds(z, atoms));
                assert(!s.holds(z, atoms));
            }
        }
    }
    assert forall|atoms: spec_fn(Id) -> bool| #[trigger] s.holds(f, atoms) == s.holds(
        r,
        atoms,
    ) by {
        lemma_holds(s, f, atoms);
        lemma_holds(s, r, atoms);
        assert forall|p: Id| #[trigger] ps.contains(p) implies s.holds(p, atoms) == s.holds(
            to[p],
            atoms,
        ) && qs.contains(to[p]) by {
            assert(kept_meaning(s, p, to[p]));
        }
        assert forall|z: Id| #[trigger] qs.contains(z) implies exists|p: Id|
            ps.contains(p) && to[p] == z && s.holds(p, atoms) == s.holds(z, atoms) by {
            let p = choose|p: Id| ps.contains(p) && to[p] == z;
            assert(ps.contains(p));
        }
        if s.formulae[f as int] is And {
            if all_hold(s, ps, atoms) {
                assert forall|z: Id| #[trigger] qs.contains(z) implies s.holds(z, atoms) by {
                    let p = choose|p: Id|
                        ps.contains(p) && to[p] == z && s.holds(p, atoms) == s.holds(z, atoms);
                    assert(ps.contains(p));
                }
            }
            if all_hold(s, qs, atoms) {
                assert forall|p: Id| #[trigger] ps.contains(p) implies s.holds(p, atoms) by {
                    assert(qs.contains(to[p]));
                }
            }
        } else if s.formulae[f as int] is Or {
            if some_holds(s, ps, atoms) {
                let p = choose|p: Id| #[trigger] ps.contains(p) && s.holds(p, atoms);
                assert(qs.contains(to[p]) && s.holds(to[p], atoms));
            }
            if some_holds(s, qs, atoms) {
                let z = choose|z: Id| #[trigger] qs.contains(z) && s.holds(z, atoms);
                let p = choose|p: Id|
                    ps.contains(p) && to[p] == z && s.holds(p, atoms) == s.holds(z, atoms);
                assert(ps.contains(p) && s.holds(p, atoms));
            }
        } else {
            if uniform(s, ps, atoms) {
                assert forall|x: Id, y: Id| #[trigger]
                    qs.contains(x) && #[trigger] qs.contains(y) implies s.holds(x, atoms)
                    == s.holds(y, atoms) by {
                    let p = choose|p: Id|
                        ps.contains(p) && to[p] == x && s.holds(p, atoms) == s.holds(x, atoms);
                    let q = choose|q: Id|
                        ps.contains(q) && to[q] == y && s.holds(q, atoms) == s.holds(y, atoms);
                    assert(ps.contains(p) && ps.contains(q));
                }
            }
            if uniform(s, qs, atoms) {
                assert forall|x: Id, y: Id| #[trigger]
                    ps.contains(x) && #[trigger] ps.contains(y) implies s.holds(x, atoms)
                    == s.holds(y, atoms) by {
                    assert(qs.contains(to[x]) && qs.contains(to[y]));
                }
            }
        }
    }
}

/// Where the implications of a conjunction are normal in a store, they
/// are normal in every store that extends it.
pub proof fn lemma_implications_normal_extends(old: StoreView, new: StoreView, c: Id)
    requires
        old.wf(),
        new.wf(),
        new.extends(old),
        c < old.formulae.len(),
        implications_normal(old, c),
    ensures
        implications_normal(new, c),
{
    assert(new.formulae[c as int] == old.formulae[c as int]);
    match old.formulae[c as int] {
        FormulaView::And(ps) => {
            lemma_members_valid(old, c, ps);
            assert forall|z: Id| #[trigger]
                ps.contains(z) && new.formulae[z as int] is Imp implies is_normal(new, z) by {
                assert(new.formulae[z as int] == old.formulae[z as int]);
                lemma_normal_extends(old, new, z);
            }
        },
        _ => {},
    }
}

/// A tame formula that agrees with `f` in a store is tame and agrees with
/// `f` in every store that extends it.
pub proof fn lemma_carry(o: StoreView, s: StoreView, f: Id, x: Id)
    requires
        o.wf(),
        s.wf(),
        s.extends(o),
        f < o.formulae.len(),
        tame(o, x),
        agrees(o, f, x),
    ensures
        tame(s, x),
        agrees(s, f, x),
{
    lemma_tame_extends(o, s, x);
    lemma_agrees_extends(o, s, f, x);
}

/// Boolean propagation, after the parts of a tame formula were simplified,
/// gives a tame formula that agrees with it.
pub proof fn lemma_stage_propagated(o: StoreView, s: StoreView, f: Id, x: Id, y: Id)
    requires
        o.wf(),
        s.wf(),
        s.extends(o),
        f < o.formulae.len(),
        y < s.formulae.len(),
        tame(o, x),
        parts_normal(o, x),
        agrees(o, f, x),
        propagated(s, x, y),
        negations_present(s, x),
    ensures
        tame(s, y),
        implications_normal(s, y),
        !self_denying(s, y),
        agrees(s, f, y),
{
    lemma_carry(o, s, f, x);
    lemma_parts_normal_extends(o, s, x);
    lemma_ready(s, x);
    lemma_propagated_tame(s, x, y);
    assert forall|atoms: spec_fn(Id) -> bool| #[trigger] s.holds(x, atoms) == s.holds(
        y,
        atoms,
    ) by {
        lemma_propagated_holds(s, x, y, atoms);
    }
    lemma_agrees_trans(s, f, x, y);
}

/// The search for contradictions gives a tame formula that agrees with the
/// one it is given.
pub proof fn lemma_stage_contradicted(o: StoreView, s: StoreView, f: Id, x: Id, y: Id)
    requires
        o.wf(),
        s.wf(),
        s.extends(o),
        f < o.formulae.len(),
        y < s.formulae.len(),
        tame(o, x),
        implications_normal(o, x),
        !self_denying(o, x),
        agrees(o, f, x),
        contradicted(s, x, y),
    ensures
        tame(s, y),
        implications_normal(s, y),
        agrees(s, f, y),
{
    lemma_carry(o, s, f, x);
    lemma_implications_normal_extends(o, s, x);
    assert(o.formula_ok(o.formulae[x as int], x as int));
    assert(s.formulae[x as int] == o.formulae[x as int]);
    assert(!self_denying(s, x));
    lemma_contradicted_tame(s, x, y);
    assert forall|atoms: spec_fn(Id) -> bool| #[trigger] s.holds(x, atoms) == s.holds(
        y,
        atoms,
    ) by {
        lemma_contradicted_holds(s, x, y, atoms);
    }
    lemma_agrees_trans(s, f, x, y);
}

/// The merging of classes gives a tame formula that agrees with the one
/// it is given.
pub proof fn lemma_stage_combined(
    o: StoreView,
    s: StoreView,
    f: Id,
    x: Id,
    y: Id,
    equivalences: bool,
)
    requires
        o.wf(),
        s.wf(),
        s.extends(o),
        f < o.formulae.len(),
        y < s.formulae.len(),
        tame(o, x),
        implications_normal(o, x),
        agrees(o, f, x),
        classes_combined(s, x, y, equivalences),
        equivalences ==> classes_present(s, x),
    ensures
        tame(s, y),
        implications_normal(s, y),
        agrees(s, f, y),
{
    lemma_carry(o, s, f, x);
    lemma_implications_normal_extends(o, s, x);
    lemma_combined_tame(s, x, y, equivalences);
    lemma_no_equations(s, x);
    assert forall|atoms: spec_fn(Id) -> bool| #[trigger] s.holds(x, atoms) == s.holds(
        y,
        atoms,
    ) by {
        lemma_combined_holds(s, x, y, equivalences, atoms);
    }
    lemma_agrees_trans(s, f, x, y);
}

/// The pairing of implications gives a tame formula that agrees with the
/// one it is given.
pub proof fn lemma_stage_implications(o: StoreView, s: StoreView, f: Id, x: Id, y: Id)
    requires
        o.wf(),
        s.wf(),
        s.extends(o),
        f < o.formulae.len(),
        y < s.formulae.len(),
        tame(o, x),
        implications_normal(o, x),
        agrees(o, f, x),
        implications_combined(s, x, y),
        pairs_present(s, x),
    ensures
        tame(s, y),
        agrees(s, f, y),
{
    lemma_carry(o, s, f, x);
    lemma_implications_normal_extends(o, s, x);
    lemma_implications_tame(s, x, y);
    assert forall|atoms: spec_fn(Id) -> bool| #[trigger] s.holds(x, atoms) == s.holds(
        y,
        atoms,
    ) by {
        lemma_implications_holds(s, x, y, atoms);
    }
    lemma_agrees_trans(s, f, x, y);
}

/// The removal of a double negation, flattening, and the rewriting of a
/// connective with too few members, one after the other, give a tame
/// formula that agrees with the one they are given.
pub proof fn lemma_stage_rest(
    o: StoreView,
    m: StoreView,
    s: StoreView,
    f: Id,
    x: Id,
    a: Id,
    b: Id,
    y: Id,
)
    requires
        o.wf(),
        m.wf(),
        s.wf(),
        m.extends(o),
        s.extends(m),
        f < o.formulae.len(),
        b < m.formulae.len(),
        y < s.formulae.len(),
        tame(o, x),
        agrees(o, f, x),
        unnegated(o, x, a),
        flattened(m, a, b),
        trivialised(s, b, y),
    ensures
        tame(s, y),
        agrees(s, f, y),
{
    lemma_unnegated_tame(o, x, a);
    assert forall|atoms: spec_fn(Id) -> bool| #[trigger] o.holds(x, atoms) == o.holds(
        a,
        atoms,
    ) by {
        lemma_unnegated_holds(o, x, a, atoms);
    }
    lemma_agrees_trans(o, f, x, a);
    lemma_carry(o, m, f, a);
    lemma_flattened_tame(m, a, b);
    assert forall|atoms: spec_fn(Id) -> bool| #[trigger] m.holds(a, atoms) == m.holds(
        b,
        atoms,
    ) by {
        lemma_flattened_holds(m, a, b, atoms);
    }
    lemma_agrees_trans(m, f, a, b);
    lemma_carry(m, s, f, b);
    lemma_trivialised_tame(s, b, y);
    assert forall|atoms: spec_fn(Id) -> bool| #[trigger] s.holds(b, atoms) == s.holds(
        y,
        atoms,
    ) by {
        lemma_trivialised_holds(s, b, y, atoms);
    }
    lemma_agrees_trans(s, f, b, y);
}

/// The equational rewrites give a tame formula that agrees with the tame
/// formula that they are given.
pub proof fn lemma_stage_equational(o: StoreView, m: StoreView, s: StoreView, f: Id, a: Id, y: Id)
    requires
        o.wf(),
        m.wf(),
        s.wf(),
        m.extends(o),
        s.extends(m),
        y < s.formulae.len(),
        tame(o, f),
        equation_trivialised(m, f, a),
        classes_combined(s, a, y, false),
    ensures
        tame(s, y),
        agrees(s, f, y),
{
    lemma_tame_extends(o, m, f);
    assert(a == f);
    lemma_tame_extends(m, s, f);
    lemma_tame(s, f);
    lemma_tame(s, y);
    lemma_no_equations(s, f);
    match s.formulae[f as int] {
        FormulaView::And(ps) => {
            lemma_members_valid(s, f, ps);
            lemma_no_eq_classes(s, ps);
            let qs = s.formulae[y as int]->And_0;
            assert forall|q: Id| #[trigger] qs.contains(q) implies tame(s, q) by {
                assert(member_combined(s, ps, q, false));
                assert(member_kept(s, ps, q, false));
            }
        },
        _ => {},
    }
    assert forall|atoms: spec_fn(Id) -> bool| #[trigger] s.holds(f, atoms) == s.holds(
        y,
        atoms,
    ) by {
        lemma_combined_holds(s, f, y, false, atoms);
    }
}

/// Whether `f` is a propositional formula in which every member of an
/// equivalence class is false under some assignment and the two sides of
/// every implication have the same truth value under some assignment.
pub open spec fn sober(s: StoreView, f: Id) -> bool
    decreases f,
{
    f < s.formulae.len() && match s.formulae[f as int] {
        FormulaView::T => true,
        FormulaView::F => true,
        FormulaView::Prd(_, _) => true,
        FormulaView::Eq(_) => false,
        FormulaView::All(_) => false,
        FormulaView::Ex(_) => false,
        FormulaView::Not(p) => p < f && sober(s, p),
        FormulaView::Imp(p, q) => p < f && q < f && sober(s, p) && sober(s, q) && compatible(
            s,
            p,
            q,
        ),
        FormulaView::Or(ps) => forall|i: int|
            0 <= i < ps.len() ==> (#[trigger] ps[i]) < f && sober(s, ps[i]),
        FormulaView::And(ps) => forall|i: int|
            0 <= i < ps.len() ==> (#[trigger] ps[i]) < f && sober(s, ps[i]),
        FormulaView::Eqv(ps) => forall|i: int|
            0 <= i < ps.len() ==> (#[trigger] ps[i]) < f && sober(s, ps[i]) && falsifiable(
                s,
                ps[i],
            ),
    }
}

/// A sober formula is tame and propositional.
pub proof fn lemma_sober_tame(s: StoreView, f: Id)
    requires
        sober(s, f),
    ensures
        tame(s, f),
        s.propositional(f),
    decreases f,
{
    match s.formulae[f as int] {
        FormulaView::Not(p) => {
            lemma_sober_tame(s, p);
        },
        FormulaView::Imp(p, q) => {
            lemma_sober_tame(s, p);
            lemma_sober_tame(s, q);
        },
        FormulaView::Or(ps) => {
            assert forall|i: int| 0 <= i < ps.len() implies (#[trigger] ps[i]) < f && tame(
                s,
                ps[i],
            ) && s.propositional(ps[i]) by {
                lemma_sober_tame(s, ps[i]);
            }
        },
        FormulaView::And(ps) => {
            assert forall|i: int| 0 <= i < ps.len() implies (#[trigger] ps[i]) < f && tame(
                s,
                ps[i],
            ) && s.propositional(ps[i]) by {
                lemma_sober_tame(s, ps[i]);
            }
        },
        FormulaView::Eqv(ps) => {
            assert forall|i: int| 0 <= i < ps.len() implies (#[trigger] ps[i]) < f && tame(
                s,
                ps[i],
            ) && steady(s, ps[i]) && s.propositional(ps[i]) by {
                lemma_sober_tame(s, ps[i]);
            }
        },
        _ => {},
    }
}

/// Whether a formula is false under some assignment, and whether two have
/// the same truth value under some assignment, does not depend on what
/// else the store holds.
pub proof fn lemma_semantic_extends(old: StoreView, new: StoreView, p: Id, q: Id)
    requires
        new.extends(old),
        p < old.formulae.len(),
        q < old.formulae.len(),
    ensures
        falsifiable(new, p) == falsifiable(old, p),
        compatible(new, p, q) == compatible(old, p, q),
{
    if falsifiable(old, p) {
        let atoms = choose|atoms: spec_fn(Id) -> bool| !#[trigger] old.holds(p, atoms);
        lemma_holds_extends(old, new, p, atoms);
        assert(!new.holds(p, atoms));
    }
    if falsifiable(new, p) {
        let atoms = choose|atoms: spec_fn(Id) -> bool| !#[trigger] new.holds(p, atoms);
        lemma_holds_extends(old, new, p, atoms);
        assert(!old.holds(p, atoms));
    }
    if compatible(old, p, q) {
        let atoms = choose|atoms: spec_fn(Id) -> bool| #[trigger]
            old.holds(p, atoms) == old.holds(q, atoms);
        lemma_holds_extends(old, new, p, atoms);
        lemma_holds_extends(old, new, q, atoms);
        assert(new.holds(p, atoms) == new.holds(q, atoms));
    }
    if compatible(new, p, q) {
        let atoms = choose|atoms: spec_fn(Id) -> bool| #[trigger]
            new.holds(p, atoms) == new.holds(q, atoms);
        lemma_holds_extends(old, new, p, atoms);
        lemma_holds_extends(old, new, q, atoms);
        assert(old.holds(p, atoms) == old.holds(q, atoms));
    }
}

/// A formula is sober in a store exactly if it is in every store that
/// extends it.
pub proof fn lemma_sober_extends(old: StoreView, new: StoreView, f: Id)
    requires
        old.wf(),
        new.extends(old),
        f < old.formulae.len(),
    ensures
        sober(new, f) == sober(old, f),
    decreases f,
{
    assert(new.formulae[f as int] == old.formulae[f as int]);
    assert(old.formula_ok(old.formulae[f as int], f as int));
    match old.formulae[f as int] {
        FormulaView::Not(p) => {
            lemma_sober_extends(old, new, p);
        },
        FormulaView::Imp(p, q) => {
            lemma_sober_extends(old, new, p);
            lemma_sober_extends(old, new, q);
            lemma_semantic_extends(old, new, p, q);
        },
        FormulaView::Or(ps) => {
            assert forall|i: int| 0 <= i < ps.len() implies (#[trigger] ps[i]) < f && sober(
                new,
                ps[i],
            ) == sober(old, ps[i]) by {
                lemma_sober_extends(old, new, ps[i]);
            }
        },
        FormulaView::And(ps) => {
            assert forall|i: int| 0 <= i < ps.len() implies (#[trigger] ps[i]) < f && sober(
                new,
                ps[i],
            ) == sober(old, ps[i]) by {
                lemma_sober_extends(old, new, ps[i]);
            }
        },
        FormulaView::Eqv(ps) => {
            assert forall|i: int| 0 <= i < ps.len() implies (#[trigger] ps[i]) < f && sober(
                new,
                ps[i],
            ) == sober(old, ps[i]) && falsifiable(new, ps[i]) == falsifiable(old, ps[i]) by {
                lemma_sober_extends(old, new, ps[i]);
                lemma_semantic_extends(old, new, ps[i], ps[i]);
            }
        },
        _ => {},
    }
}

/// Whether every member of `ps` is sober.
pub open spec fn all_sober(s: StoreView, ps: Seq<Id>) -> bool {
    forall|x: Id| #[trigger] ps.contains(x) ==> sober(s, x)
}

/// Whether every member of `ps` is false under some assignment.
pub open spec fn all_falsifiable(s: StoreView, ps: Seq<Id>) -> bool {
    forall|x: Id| #[trigger] ps.contains(x) ==> falsifiable(s, x)
}

/// What it is for a stored formula to be sober, in terms of its members.
pub proof fn lemma_sober(s: StoreView, f: Id)
    requires
        s.wf(),
        f < s.formulae.len(),
    ensures
        match s.formulae[f as int] {
            FormulaView::Or(ps) => sober(s, f) == all_sober(s, ps),
            FormulaView::And(ps) => sober(s, f) == all_sober(s, ps),
            FormulaView::Eqv(ps) => sober(s, f) == (all_sober(s, ps) && all_falsifiable(s, ps)),
            FormulaView::Not(p) => sober(s, f) == sober(s, p),
            FormulaView::Imp(p, q) => sober(s, f) == (sober(s, p) && sober(s, q) && compatible(
                s,
                p,
                q,
            )),
            FormulaView::T => sober(s, f),
            FormulaView::F => sober(s, f),
            FormulaView::Prd(_, _) => sober(s, f),
            _ => !sober(s, f),
        },
{
    assert(s.formula_ok(s.formulae[f as int], f as int));
    match s.formulae[f as int] {
        FormulaView::Or(ps) => {
            lemma_members_valid(s, f, ps);
            lemma_sober_members(s, f, ps);
        },
        FormulaView::And(ps) => {
            lemma_members_valid(s, f, ps);
            lemma_sober_members(s, f, ps);
        },
        FormulaView::Eqv(ps) => {
            lemma_members_valid(s, f, ps);
            lemma_sober_members(s, f, ps);
        },
        _ => {},
    }
}

/// What holds of every member of `ps` by position holds of it by
/// membership, and the other way round.
proof fn lemma_sober_members(s: StoreView, f: Id, ps: Seq<Id>)
    requires
        forall|x: Id| ps.contains(x) ==> x < f,
    ensures
        all_sober(s, ps) == (forall|i: int|
            0 <= i < ps.len() ==> (#[trigger] ps[i]) < f && sober(s, ps[i])),
        (all_sober(s, ps) && all_falsifiable(s, ps)) == (forall|i: int|
            0 <= i < ps.len() ==> (#[trigger] ps[i]) < f && sober(s, ps[i]) && falsifiable(
                s,
                ps[i],
            )),
{
    if all_sober(s, ps) {
        assert forall|i: int| 0 <= i < ps.len() implies (#[trigger] ps[i]) < f && sober(
            s,
            ps[i],
        ) by {
            assert(ps.contains(ps[i]));
        }
    }
    if all_sober(s, ps) && all_falsifiable(s, ps) {
        assert forall|i: int| 0 <= i < ps.len() implies (#[trigger] ps[i]) < f && sober(s, ps[i])
            && falsifiable(s, ps[i]) by {
            assert(ps.contains(ps[i]));
        }
    }
    if forall|i: int| 0 <= i < ps.len() ==> (#[trigger] ps[i]) < f && sober(s, ps[i]) {
        assert forall|x: Id| #[trigger] ps.contains(x) implies sober(s, x) by {
            let i = choose|i: int| 0 <= i < ps.len() && ps[i] == x;
            assert(ps[i] < f);
        }
    }
    if forall|i: int|
        0 <= i < ps.len() ==> (#[trigger] ps[i]) < f && sober(s, ps[i]) && falsifiable(s, ps[i]) {
        assert forall|x: Id| #[trigger] ps.contains(x) implies sober(s, x) && falsifiable(
            s,
            x,
        ) by {
            let i = choose|i: int| 0 <= i < ps.len() && ps[i] == x;
            assert(ps[i] < f);
        }
    }
}

} // verus!
