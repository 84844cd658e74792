//! The rewrites keep the truth value of a propositional formula.
//!
//! For each rewrite, the formula it gives holds under an assignment of
//! truth values to the atoms exactly if the formula it was given does. The
//! one exception is boolean propagation on an equivalence class that holds
//! the constant `T` beside other members and does not hold `F`: it drops
//! the constant, which changes the meaning of the class.

use crate::collections::{
    absorbed, ascending, combined, first_overlap, joined, lemma_first_overlap_range, lemma_joined,
    overlapping, Id,
};
use crate::collections::swept;
use crate::formula::FormulaView;
use crate::simplification::classes::{
    class_among, classes_combined, eq_classes, eqv_class_of, eqv_classes,
    lemma_classes_ascending, lemma_classes_from_members, member_combined, member_eq_class,
    member_eqv_class, member_kept,
};

use crate::simplification::lighter::lemma_members_valid;
use crate::simplification::merging::lemma_class_listed;
use crate::simplification::propositional::{
    contradicted,
    first_paired,
    flattened,
    has_complement,
    has_false,
    has_true,
    implications_combined,
    is_and,
    is_paired,
    member_folded,
    member_lifted_and,
    member_lifted_or,
    member_negated,
    member_not_false,
    member_not_true,
    pair_of,
    propagated,
    trivialised,
    unnegated,
};
use crate::store::StoreView;
use vstd::prelude::*;

verus! {

/// Whether all of `ps` hold.
pub open spec fn all_hold(s: StoreView, ps: Seq<Id>, atoms: spec_fn(Id) -> bool) -> bool {
    forall|x: Id| #[trigger] ps.contains(x) ==> s.holds(x, atoms)
}

/// Whether one of `ps` holds.
pub open spec fn some_holds(s: StoreView, ps: Seq<Id>, atoms: spec_fn(Id) -> bool) -> bool {
    exists|x: Id| #[trigger] ps.contains(x) && s.holds(x, atoms)
}

/// Whether all of `ps` have the same truth value.
pub open spec fn uniform(s: StoreView, ps: Seq<Id>, atoms: spec_fn(Id) -> bool) -> bool {
    forall|x: Id, y: Id|
        #[trigger] ps.contains(x) && #[trigger] ps.contains(y) ==> s.holds(x, atoms) == s.holds(
            y,
            atoms,
        )
}

/// What it is for a stored connective to hold, in terms of its members.
pub proof fn lemma_holds(s: StoreView, f: Id, atoms: spec_fn(Id) -> bool)
    requires
        s.wf(),
        f < s.formulae.len(),
    ensures
        match s.formulae[f as int] {
            FormulaView::T => s.holds(f, atoms),
            FormulaView::F => !s.holds(f, atoms),
            FormulaView::Not(p) => p < f && s.holds(f, atoms) == !s.holds(p, atoms),
            FormulaView::Imp(p, q) => p < f && q < f && s.holds(f, atoms) == (s.holds(p, atoms)
                ==> s.holds(q, atoms)),
            FormulaView::And(ps) => s.holds(f, atoms) == all_hold(s, ps, atoms),
            FormulaView::Or(ps) => s.holds(f, atoms) == some_holds(s, ps, atoms),
            FormulaView::Eqv(ps) => s.holds(f, atoms) == uniform(s, ps, atoms),
            _ => s.holds(f, atoms) == atoms(f),
        },
{
    assert(s.formula_ok(s.formulae[f as int], f as int));
    match s.formulae[f as int] {
        FormulaView::And(ps) => {
            lemma_members_valid(s, f, ps);
            if s.holds(f, atoms) {
                assert forall|x: Id| #[trigger] ps.contains(x) implies s.holds(x, atoms) by {
                    let i = choose|i: int| 0 <= i < ps.len() && ps[i] == x;
                    assert(ps[i] < f && s.holds(ps[i], atoms));
                }
            }
            if all_hold(s, ps, atoms) {
                assert forall|i: int| 0 <= i < ps.len() implies (#[trigger] ps[i]) < f && s.holds(
                    ps[i],
                    atoms,
                ) by {
                    assert(ps.contains(ps[i]));
                }
            }
        },
        FormulaView::Or(ps) => {
            lemma_members_valid(s, f, ps);
            if s.holds(f, atoms) {
                let i = choose|i: int|
                    0 <= i < ps.len() && (#[trigger] ps[i]) < f && s.holds(ps[i], atoms);
                assert(ps.contains(ps[i]));
            }
            if some_holds(s, ps, atoms) {
                let x = choose|x: Id| #[trigger] ps.contains(x) && s.holds(x, atoms);
                let i = choose|i: int| 0 <= i < ps.len() && ps[i] == x;
                assert(ps[i] < f && s.holds(ps[i], atoms));
            }
        },
        FormulaView::Eqv(ps) => {
            lemma_members_valid(s, f, ps);
            if s.holds(f, atoms) {
                assert forall|x: Id, y: Id| #[trigger]
                    ps.contains(x) && #[trigger] ps.contains(y) implies s.holds(x, atoms)
                    == s.holds(y, atoms) by {
                    let i = choose|i: int| 0 <= i < ps.len() && ps[i] == x;
                    let j = choose|j: int| 0 <= j < ps.len() && ps[j] == y;
                    assert(ps[i] < f && ps[j] < f && s.holds(ps[i], atoms) == s.holds(
                        ps[j],
                        atoms,
                    ));
                }
            }
            if uniform(s, ps, atoms) {
                assert forall|i: int, j: int|
                    0 <= i < ps.len() && 0 <= j < ps.len() implies (#[trigger] ps[i]) < f && (
                #[trigger] ps[j]) < f && s.holds(ps[i], atoms) == s.holds(ps[j], atoms) by {
                    assert(ps.contains(ps[i]));
                    assert(ps.contains(ps[j]));
                }
            }
        },
        _ => {},
    }
}

/// Whether boolean propagation drops a member from the equivalence class
/// `x`: the class holds the constant `T`, a member that is not that
/// constant, and not the constant `F`.
pub open spec fn drops_member(s: StoreView, x: Id) -> bool {
    match s.formulae[x as int] {
        FormulaView::Eqv(ps) => !has_false(s, ps) && has_true(s, ps) && exists|z: Id|
            member_not_true(s, ps, z),
        _ => false,
    }
}

/// Whether the store holds the negation of each member of the equivalence
/// class `x`, if the class holds the constant `F`.
pub open spec fn negations_present(s: StoreView, x: Id) -> bool {
    match s.formulae[x as int] {
        FormulaView::Eqv(ps) => has_false(s, ps) ==> forall|z: Id| #[trigger]
            ps.contains(z) ==> exists|y: Id| s.is(y, FormulaView::Not(z)),
        _ => true,
    }
}

/// Boolean propagation keeps the truth value, where it drops no member from
/// an equivalence class.
pub proof fn lemma_propagated_holds(s: StoreView, x: Id, y: Id, atoms: spec_fn(Id) -> bool)
    requires
        s.wf(),
        x < s.formulae.len(),
        y < s.formulae.len(),
        propagated(s, x, y),
        !drops_member(s, x),
        negations_present(s, x),
    ensures
        s.holds(y, atoms) == s.holds(x, atoms),
{
    lemma_holds(s, x, atoms);
    lemma_holds(s, y, atoms);
    assert(s.formula_ok(s.formulae[x as int], x as int));
    match s.formulae[x as int] {
        FormulaView::Not(p) => {
            lemma_holds(s, p, atoms);
        },
        FormulaView::Imp(p, q) => {
            lemma_holds(s, p, atoms);
            lemma_holds(s, q, atoms);
        },
        FormulaView::And(ps) => {
            lemma_members_valid(s, x, ps);
            if has_false(s, ps) {
                let z = choose|z: Id| ps.contains(z) && s.is(z, FormulaView::F);
                lemma_holds(s, z, atoms);
            } else {
                let qs = s.formulae[y as int]->And_0;
                assert forall|z: Id| #[trigger] ps.contains(z) && !qs.contains(z) implies s.holds(
                    z,
                    atoms,
                ) by {
                    assert(!member_not_true(s, ps, z));
                    lemma_holds(s, z, atoms);
                }
                assert forall|z: Id| #[trigger] qs.contains(z) implies ps.contains(z) by {
                    assert(member_not_true(s, ps, z));
                }
            }
        },
        FormulaView::Or(ps) => {
            lemma_members_valid(s, x, ps);
            if has_true(s, ps) {
                let z = choose|z: Id| ps.contains(z) && s.is(z, FormulaView::T);
                lemma_holds(s, z, atoms);
            } else {
                let qs = s.formulae[y as int]->Or_0;
                assert forall|z: Id| #[trigger] ps.contains(z) && !qs.contains(z) implies !s.holds(
                    z,
                    atoms,
                ) by {
                    assert(!member_not_false(s, ps, z));
                    lemma_holds(s, z, atoms);
                }
                assert forall|z: Id| #[trigger] qs.contains(z) implies ps.contains(z) by {
                    assert(member_not_false(s, ps, z));
                }
                if some_holds(s, ps, atoms) {
                    let z = choose|z: Id| #[trigger] ps.contains(z) && s.holds(z, atoms);
                    assert(qs.contains(z));
                }
                if some_holds(s, qs, atoms) {
                    let z = choose|z: Id| #[trigger] qs.contains(z) && s.holds(z, atoms);
                    assert(ps.contains(z));
                }
            }
        },
        FormulaView::Eqv(ps) => {
            lemma_members_valid(s, x, ps);
            if has_false(s, ps) {
                let c = choose|c: Id| ps.contains(c) && s.is(c, FormulaView::F);
                lemma_holds(s, c, atoms);
                let qs = s.formulae[y as int]->And_0;
                if uniform(s, ps, atoms) {
                    assert forall|z: Id| #[trigger] qs.contains(z) implies s.holds(z, atoms) by {
                        assert(member_negated(s, ps, z));
                        let m = choose|m: Id| ps.contains(m) && s.is(z, FormulaView::Not(m));
                        lemma_holds(s, z, atoms);
                        assert(s.holds(m, atoms) == s.holds(c, atoms));
                    }
                }
                if all_hold(s, qs, atoms) {
                    assert forall|a: Id, b: Id| #[trigger]
                        ps.contains(a) && #[trigger] ps.contains(b) implies s.holds(a, atoms)
                        == s.holds(b, atoms) by {
                        let na = choose|na: Id| s.is(na, FormulaView::Not(a));
                        let nb = choose|nb: Id| s.is(nb, FormulaView::Not(b));
                        assert(member_negated(s, ps, na));
                        assert(member_negated(s, ps, nb));
                        assert(qs.contains(na) && qs.contains(nb));
                        lemma_holds(s, na, atoms);
                        lemma_holds(s, nb, atoms);
                    }
                }
            } else {
                let qs = s.formulae[y as int]->Eqv_0;
                assert forall|z: Id| #[trigger] qs.contains(z) implies ps.contains(z) by {
                    assert(member_not_true(s, ps, z));
                }
                if has_true(s, ps) {
                    assert forall|z: Id| #[trigger] ps.contains(z) implies s.holds(z, atoms) by {
                        if !s.is(z, FormulaView::T) {
                            assert(member_not_true(s, ps, z));
                        }
                        lemma_holds(s, z, atoms);
                    }
                    assert forall|z: Id| #[trigger] qs.contains(z) implies false by {
                        assert(member_not_true(s, ps, z));
                    }
                } else {
                    assert forall|z: Id| #[trigger] ps.contains(z) implies qs.contains(z) by {
                        assert(member_not_true(s, ps, z));
                    }
                }
            }
        },
        _ => {},
    }
}

/// Whether `x` is an implication between a formula and its negation.
pub open spec fn self_denying(s: StoreView, x: Id) -> bool {
    match s.formulae[x as int] {
        FormulaView::Imp(p, q) => s.is(p, FormulaView::Not(q)) || s.is(q, FormulaView::Not(p)),
        _ => false,
    }
}

/// The search for contradictions keeps the truth value, but of an
/// implication between a formula and its negation.
pub proof fn lemma_contradicted_holds(s: StoreView, x: Id, y: Id, atoms: spec_fn(Id) -> bool)
    requires
        s.wf(),
        x < s.formulae.len(),
        y < s.formulae.len(),
        contradicted(s, x, y),
        !self_denying(s, x),
    ensures
        s.holds(y, atoms) == s.holds(x, atoms),
{
    lemma_holds(s, x, atoms);
    lemma_holds(s, y, atoms);
    match s.formulae[x as int] {
        FormulaView::And(ps) => {
            lemma_members_valid(s, x, ps);
            if has_complement(s, ps) {
                let n = choose|n: Id| ps.contains(n) && member_negated(s, ps, n);
                let m = choose|m: Id| ps.contains(m) && s.is(n, FormulaView::Not(m));
                lemma_holds(s, n, atoms);
            }
        },
        FormulaView::Or(ps) => {
            lemma_members_valid(s, x, ps);
            if has_complement(s, ps) {
                let n = choose|n: Id| ps.contains(n) && member_negated(s, ps, n);
                let m = choose|m: Id| ps.contains(m) && s.is(n, FormulaView::Not(m));
                lemma_holds(s, n, atoms);
                if s.holds(m, atoms) {
                    assert(ps.contains(m) && s.holds(m, atoms));
                } else {
                    assert(ps.contains(n) && s.holds(n, atoms));
                }
            }
        },
        FormulaView::Eqv(ps) => {
            lemma_members_valid(s, x, ps);
            if has_complement(s, ps) {
                let n = choose|n: Id| ps.contains(n) && member_negated(s, ps, n);
                let m = choose|m: Id| ps.contains(m) && s.is(n, FormulaView::Not(m));
                lemma_holds(s, n, atoms);
                assert(ps.contains(n) && ps.contains(m));
            }
        },
        _ => {},
    }
}

/// The removal of a double negation keeps the truth value.
pub proof fn lemma_unnegated_holds(s: StoreView, x: Id, y: Id, atoms: spec_fn(Id) -> bool)
    requires
        s.wf(),
        x < s.formulae.len(),
        unnegated(s, x, y),
    ensures
        s.holds(y, atoms) == s.holds(x, atoms),
{
    lemma_holds(s, x, atoms);
    assert(s.formula_ok(s.formulae[x as int], x as int));
    match s.formulae[x as int] {
        FormulaView::Not(p) => {
            lemma_holds(s, p, atoms);
        },
        _ => {},
    }
}

/// The rewriting of a connective with too few members keeps the truth
/// value of a formula that is no equation.
pub proof fn lemma_trivialised_holds(s: StoreView, x: Id, y: Id, atoms: spec_fn(Id) -> bool)
    requires
        s.wf(),
        x < s.formulae.len(),
        y < s.formulae.len(),
        trivialised(s, x, y),
        !(s.formulae[x as int] is Eq),
    ensures
        s.holds(y, atoms) == s.holds(x, atoms),
{
    lemma_holds(s, x, atoms);
    lemma_holds(s, y, atoms);
    match s.formulae[x as int] {
        FormulaView::And(ps) => {
            if ps.len() == 1 {
                assert(ps.contains(ps[0]));
                assert forall|z: Id| #[trigger] ps.contains(z) implies z == ps[0] by {
                    let i = choose|i: int| 0 <= i < ps.len() && ps[i] == z;
                }
            }
        },
        FormulaView::Or(ps) => {
            if ps.len() == 1 {
                assert(ps.contains(ps[0]));
                assert forall|z: Id| #[trigger] ps.contains(z) implies z == ps[0] by {
                    let i = choose|i: int| 0 <= i < ps.len() && ps[i] == z;
                }
            } else if ps.len() == 0 {
                assert forall|z: Id| !ps.contains(z) by {}
            }
        },
        FormulaView::Eqv(ps) => {
            if ps.len() < 2 {
                assert forall|a: Id, b: Id| #[trigger]
                    ps.contains(a) && #[trigger] ps.contains(b) implies a == b by {
                    let i = choose|i: int| 0 <= i < ps.len() && ps[i] == a;
                    let j = choose|j: int| 0 <= j < ps.len() && ps[j] == b;
                }
            }
        },
        _ => {},
    }
}

/// Flattening keeps the truth value.
pub proof fn lemma_flattened_holds(s: StoreView, x: Id, y: Id, atoms: spec_fn(Id) -> bool)
    requires
        s.wf(),
        x < s.formulae.len(),
        y < s.formulae.len(),
        flattened(s, x, y),
    ensures
        s.holds(y, atoms) == s.holds(x, atoms),
{
    lemma_holds(s, x, atoms);
    lemma_holds(s, y, atoms);
    match s.formulae[x as int] {
        FormulaView::And(ps) => {
            lemma_members_valid(s, x, ps);
            let qs = s.formulae[y as int]->And_0;
            if all_hold(s, ps, atoms) {
                assert forall|z: Id| #[trigger] qs.contains(z) implies s.holds(z, atoms) by {
                    assert(member_lifted_and(s, ps, z));
                    if !(ps.contains(z) && !(s.formulae[z as int] is And)) {
                        let m = choose|m: Id|
                            ps.contains(m) && (match s.formulae[m as int] {
                                FormulaView::And(zs) => zs.contains(z),
                                _ => false,
                            });
                        lemma_holds(s, m, atoms);
                    }
                }
            }
            if all_hold(s, qs, atoms) {
                assert forall|m: Id| #[trigger] ps.contains(m) implies s.holds(m, atoms) by {
                    lemma_holds(s, m, atoms);
                    match s.formulae[m as int] {
                        FormulaView::And(zs) => {
                            assert forall|z: Id| #[trigger] zs.contains(z) implies s.holds(
                                z,
                                atoms,
                            ) by {
                                assert(member_lifted_and(s, ps, z));
                                assert(qs.contains(z));
                            }
                        },
                        _ => {
                            assert(member_lifted_and(s, ps, m));
                            assert(qs.contains(m));
                        },
                    }
                }
            }
        },
        FormulaView::Or(ps) => {
            lemma_members_valid(s, x, ps);
            let qs = s.formulae[y as int]->Or_0;
            if some_holds(s, ps, atoms) {
                let m = choose|m: Id| #[trigger] ps.contains(m) && s.holds(m, atoms);
                lemma_holds(s, m, atoms);
                match s.formulae[m as int] {
                    FormulaView::Or(zs) => {
                        let z = choose|z: Id| #[trigger] zs.contains(z) && s.holds(z, atoms);
                        assert(member_lifted_or(s, ps, z));
                        assert(qs.contains(z));
                    },
                    _ => {
                        assert(member_lifted_or(s, ps, m));
                        assert(qs.contains(m));
                    },
                }
            }
            if some_holds(s, qs, atoms) {
                let z = choose|z: Id| #[trigger] qs.contains(z) && s.holds(z, atoms);
                assert(member_lifted_or(s, ps, z));
                if !(ps.contains(z) && !(s.formulae[z as int] is Or)) {
                    let m = choose|m: Id|
                        ps.contains(m) && (match s.formulae[m as int] {
                            FormulaView::Or(zs) => zs.contains(z),
                            _ => false,
                        });
                    lemma_holds(s, m, atoms);
                    assert(ps.contains(m) && s.holds(m, atoms));
                }
            }
        },
        _ => {},
    }
}

/// Whether the store holds the equivalence of the two sides of the first
/// implication of the conjunction `x` whose converse is a member too.
pub open spec fn pairs_present(s: StoreView, x: Id) -> bool {
    match s.formulae[x as int] {
        FormulaView::And(ps) => forall|i: int| #[trigger]
            first_paired(s, ps, i) ==> (match s.formulae[ps[i] as int] {
                FormulaView::Imp(l, r) => exists|e: Id| s.is(e, FormulaView::Eqv(pair_of(l, r))),
                _ => true,
            }),
        _ => true,
    }
}

/// The pairing of implications keeps the truth value.
pub proof fn lemma_implications_holds(s: StoreView, x: Id, y: Id, atoms: spec_fn(Id) -> bool)
    requires
        s.wf(),
        x < s.formulae.len(),
        y < s.formulae.len(),
        implications_combined(s, x, y),
        pairs_present(s, x),
    ensures
        s.holds(y, atoms) == s.holds(x, atoms),
{
    lemma_holds(s, x, atoms);
    lemma_holds(s, y, atoms);
    match s.formulae[x as int] {
        FormulaView::And(ps) => {
            lemma_members_valid(s, x, ps);
            if exists|i: int| first_paired(s, ps, i) {
                let i = choose|i: int|
                    first_paired(s, ps, i) && is_and(s, y, |z: Id| member_folded(s, ps, ps[i], z));
                let a = ps[i];
                assert(ps.contains(a));
                assert(is_paired(s, ps, a));
                let qs = s.formulae[y as int]->And_0;
                let l = s.formulae[a as int]->Imp_0;
                let r = s.formulae[a as int]->Imp_1;
                assert(s.formulae[a as int] == FormulaView::Imp(l, r));
                let c = choose|c: Id| ps.contains(c) && s.is(c, FormulaView::Imp(r, l));
                let e = choose|e: Id| s.is(e, FormulaView::Eqv(pair_of(l, r)));
                assert(s.is(e, FormulaView::Eqv(pair_of(l, r))));
                assert(member_folded(s, ps, a, e));
                assert(qs.contains(e));
                lemma_holds(s, a, atoms);
                lemma_holds(s, c, atoms);
                lemma_holds(s, e, atoms);
                let pair = pair_of(l, r);
                assert(pair.contains(l) && pair.contains(r)) by {
                    if l < r {
                        assert(pair[0] == l && pair[1] == r);
                    } else if l == r {
                        assert(pair[0] == l);
                    } else {
                        assert(pair[0] == r && pair[1] == l);
                    }
                }
                assert forall|z: Id| #[trigger] pair.contains(z) implies z == l || z == r by {
                    let k = choose|k: int| 0 <= k < pair.len() && pair[k] == z;
                }
                if all_hold(s, ps, atoms) {
                    assert(s.holds(a, atoms) && s.holds(c, atoms));
                    assert forall|z: Id| #[trigger] qs.contains(z) implies s.holds(z, atoms) by {
                        assert(member_folded(s, ps, a, z));
                        if !(ps.contains(z) && z != a && !s.is(z, FormulaView::Imp(r, l))) {
                            assert(z == e) by {
                                crate::store::lemma_interning(s, z, e);
                            }
                        }
                    }
                }
                if all_hold(s, qs, atoms) {
                    assert(s.holds(e, atoms));
                    assert(s.holds(l, atoms) == s.holds(r, atoms));
                    assert forall|m: Id| #[trigger] ps.contains(m) implies s.holds(m, atoms) by {
                        if m == a {
                        } else if s.is(m, FormulaView::Imp(r, l)) {
                            lemma_holds(s, m, atoms);
                        } else {
                            assert(member_folded(s, ps, a, m));
                            assert(qs.contains(m));
                        }
                    }
                }
            }
        },
        _ => {},
    }
}

/// Whether each of the classes is uniform.
pub open spec fn all_uniform(s: StoreView, classes: Seq<Seq<Id>>, atoms: spec_fn(Id) -> bool) -> bool {
    forall|k: int| 0 <= k < classes.len() ==> uniform(s, #[trigger] classes[k], atoms)
}

/// Two classes that share a member are both uniform exactly if the class of
/// the members of both is.
pub proof fn lemma_joined_uniform(s: StoreView, a: Seq<Id>, b: Seq<Id>, atoms: spec_fn(Id) -> bool)
    requires
        ascending(a),
        overlapping(a, b),
    ensures
        uniform(s, joined(a, b), atoms) == (uniform(s, a, atoms) && uniform(s, b, atoms)),
{
    lemma_joined(a, b);
    let both = joined(a, b);
    let shared = choose|x: Id| a.contains(x) && b.contains(x);
    if uniform(s, a, atoms) && uniform(s, b, atoms) {
        assert forall|x: Id, y: Id| #[trigger]
            both.contains(x) && #[trigger] both.contains(y) implies s.holds(x, atoms) == s.holds(
            y,
            atoms,
        ) by {
            assert(a.contains(shared) && b.contains(shared));
            assert(s.holds(x, atoms) == s.holds(shared, atoms)) by {
                if a.contains(x) {
                    assert(a.contains(x) && a.contains(shared));
                } else {
                    assert(b.contains(x) && b.contains(shared));
                }
            }
            assert(s.holds(y, atoms) == s.holds(shared, atoms)) by {
                if a.contains(y) {
                    assert(a.contains(y) && a.contains(shared));
                } else {
                    assert(b.contains(y) && b.contains(shared));
                }
            }
        }
    }
    if uniform(s, both, atoms) {
        assert forall|x: Id, y: Id| #[trigger]
            a.contains(x) && #[trigger] a.contains(y) implies s.holds(x, atoms) == s.holds(
            y,
            atoms,
        ) by {
            assert(both.contains(x) && both.contains(y));
        }
        assert forall|x: Id, y: Id| #[trigger]
            b.contains(x) && #[trigger] b.contains(y) implies s.holds(x, atoms) == s.holds(
            y,
            atoms,
        ) by {
            assert(both.contains(x) && both.contains(y));
        }
    }
}

/// The classes are all uniform exactly if the classes that a sweep makes
/// of them are.
pub proof fn lemma_swept_uniform(s: StoreView, classes: Seq<Seq<Id>>, atoms: spec_fn(Id) -> bool)
    requires
        forall|i: int| 0 <= i < classes.len() ==> ascending(#[trigger] classes[i]),
    ensures
        all_uniform(s, swept(classes), atoms) == all_uniform(s, classes, atoms),
    decreases classes.len(),
{
    if classes.len() > 0 {
        let front = classes.drop_last();
        let last = classes.last();
        let acc = swept(front);
        assert forall|i: int| 0 <= i < front.len() implies ascending(#[trigger] front[i]) by {
            assert(front[i] == classes[i]);
        }
        lemma_swept_uniform(s, front, atoms);
        crate::collections::lemma_swept_members(front);
        let k = first_overlap(acc, last, 0);
        lemma_first_overlap_range(acc, last, 0);
        let out = swept(classes);
        assert(out == absorbed(acc, last));
        assert(all_uniform(s, classes, atoms) == (all_uniform(s, front, atoms) && uniform(
            s,
            last,
            atoms,
        ))) by {
            if all_uniform(s, classes, atoms) {
                assert forall|i: int| 0 <= i < front.len() implies uniform(
                    s,
                    #[trigger] front[i],
                    atoms,
                ) by {
                    assert(front[i] == classes[i]);
                }
                assert(classes[classes.len() - 1] == last);
            }
            if all_uniform(s, front, atoms) && uniform(s, last, atoms) {
                assert forall|i: int| 0 <= i < classes.len() implies uniform(
                    s,
                    #[trigger] classes[i],
                    atoms,
                ) by {
                    if i < front.len() {
                        assert(front[i] == classes[i]);
                    }
                }
            }
        }
        if k < acc.len() {
            lemma_overlap_found(acc, last, 0);
            lemma_joined_uniform(s, acc[k], last, atoms);
            assert(out == acc.update(k, joined(acc[k], last)));
            if all_uniform(s, out, atoms) {
                assert(uniform(s, out[k], atoms));
                assert forall|j: int| 0 <= j < acc.len() implies uniform(
                    s,
                    #[trigger] acc[j],
                    atoms,
                ) by {
                    if j != k {
                        assert(out[j] == acc[j]);
                    }
                }
            }
            if all_uniform(s, acc, atoms) && uniform(s, last, atoms) {
                assert forall|j: int| 0 <= j < out.len() implies uniform(
                    s,
                    #[trigger] out[j],
                    atoms,
                ) by {
                    if j != k {
                        assert(out[j] == acc[j]);
                    } else {
                        assert(uniform(s, acc[k], atoms));
                    }
                }
            }
        } else {
            assert(out == acc.push(last));
            if all_uniform(s, out, atoms) {
                assert forall|j: int| 0 <= j < acc.len() implies uniform(
                    s,
                    #[trigger] acc[j],
                    atoms,
                ) by {
                    assert(out[j] == acc[j]);
                }
                assert(out[acc.len() as int] == last);
            }
            if all_uniform(s, acc, atoms) && uniform(s, last, atoms) {
                assert forall|j: int| 0 <= j < out.len() implies uniform(
                    s,
                    #[trigger] out[j],
                    atoms,
                ) by {
                    if j < acc.len() {
                        assert(out[j] == acc[j]);
                    }
                }
            }
        }
    } else {
        assert(swept(classes).len() == 0);
    }
}

/// The classes are all uniform exactly if the classes that merging makes
/// of them are.
pub proof fn lemma_combined_uniform(s: StoreView, classes: Seq<Seq<Id>>, atoms: spec_fn(Id) -> bool)
    requires
        forall|i: int| 0 <= i < classes.len() ==> ascending(#[trigger] classes[i]),
    ensures
        all_uniform(s, combined(classes), atoms) == all_uniform(s, classes, atoms),
    decreases classes.len(),
{
    let once = crate::collections::swept(classes);
    lemma_swept_uniform(s, classes, atoms);
    crate::collections::lemma_swept_members(classes);
    if once.len() < classes.len() {
        lemma_combined_uniform(s, once, atoms);
    }
}

/// Where the search for an overlapping class finds one, that class
/// overlaps.
pub proof fn lemma_overlap_found(classes: Seq<Seq<Id>>, class: Seq<Id>, from: int)
    requires
        0 <= from <= classes.len(),
        first_overlap(classes, class, from) < classes.len(),
    ensures
        overlapping(classes[first_overlap(classes, class, from)], class),
    decreases classes.len() - from,
{
    if from < classes.len() && !overlapping(classes[from], class) {
        lemma_overlap_found(classes, class, from + 1);
    }
}

/// Whether the store holds the equivalence class of each of the classes
/// that merging makes of the equivalence classes of the conjunction `x`.
pub open spec fn classes_present(s: StoreView, x: Id) -> bool {
    match s.formulae[x as int] {
        FormulaView::And(ps) => forall|k: int|
            0 <= k < combined(eqv_classes(s, ps)).len() ==> class_present(
                s,
                #[trigger] combined(eqv_classes(s, ps))[k],
            ),
        _ => true,
    }
}

/// Whether the store holds the equivalence class with the members `class`.
pub open spec fn class_present(s: StoreView, class: Seq<Id>) -> bool {
    exists|e: Id| s.is(e, FormulaView::Eqv(class))
}

/// Whether no member of the conjunction `x` is an equation.
pub open spec fn no_equations(s: StoreView, x: Id) -> bool {
    match s.formulae[x as int] {
        FormulaView::And(ps) => forall|z: Id| #[trigger]
            ps.contains(z) ==> !(s.formulae[z as int] is Eq),
        _ => true,
    }
}

/// Members of which none is an equation have no classes of equations.
pub proof fn lemma_no_eq_classes(s: StoreView, ps: Seq<Id>)
    requires
        forall|z: Id| #[trigger] ps.contains(z) ==> !(s.formulae[z as int] is Eq),
    ensures
        eq_classes(s, ps).len() == 0,
        combined(eq_classes(s, ps)).len() == 0,
{
    lemma_classes_from_members(s, ps);
    if eq_classes(s, ps).len() > 0 {
        assert(class_among(s, ps, eq_classes(s, ps)[0], false));
    }
    assert(eq_classes(s, ps) =~= Seq::empty());
}

/// The merging of classes keeps the truth value of a conjunction without
/// equations.
pub proof fn lemma_combined_holds(
    s: StoreView,
    x: Id,
    y: Id,
    equivalences: bool,
    atoms: spec_fn(Id) -> bool,
)
    requires
        s.wf(),
        x < s.formulae.len(),
        y < s.formulae.len(),
        classes_combined(s, x, y, equivalences),
        equivalences ==> classes_present(s, x),
        no_equations(s, x),
    ensures
        s.holds(y, atoms) == s.holds(x, atoms),
{
    lemma_holds(s, x, atoms);
    lemma_holds(s, y, atoms);
    match s.formulae[x as int] {
        FormulaView::And(ps) => {
            lemma_members_valid(s, x, ps);
            let qs = s.formulae[y as int]->And_0;
            lemma_no_eq_classes(s, ps);
            let classes = eqv_classes(s, ps);
            let merged = combined(classes);
            assert forall|i: int| 0 <= i < ps.len() implies ps[i] < s.formulae.len() by {
                assert(ps.contains(ps[i]));
            }
            lemma_classes_ascending(s, ps);
            lemma_classes_from_members(s, ps);
            lemma_combined_uniform(s, classes, atoms);
            if all_hold(s, ps, atoms) {
                assert forall|k: int| 0 <= k < classes.len() implies uniform(
                    s,
                    #[trigger] classes[k],
                    atoms,
                ) by {
                    assert(class_among(s, ps, classes[k], true));
                    let m = choose|m: Id|
                        ps.contains(m) && s.formulae[m as int] is Eqv && eqv_class_of(s, m)
                            == classes[k];
                    lemma_holds(s, m, atoms);
                }
                assert forall|q: Id| #[trigger] qs.contains(q) implies s.holds(q, atoms) by {
                    assert(member_combined(s, ps, q, equivalences));
                    if member_kept(s, ps, q, equivalences) {
                    } else if member_eq_class(s, ps, q) {
                    } else {
                        lemma_holds(s, q, atoms);
                        let k = choose|k: int|
                            0 <= k < merged.len() && #[trigger] merged[k] == eqv_class_of(s, q);
                        assert(uniform(s, merged[k], atoms));
                    }
                }
            }
            if all_hold(s, qs, atoms) {
                if equivalences {
                    assert forall|k: int| 0 <= k < merged.len() implies uniform(
                        s,
                        #[trigger] merged[k],
                        atoms,
                    ) by {
                        assert(class_present(s, merged[k]));
                        let e = choose|e: Id| s.is(e, FormulaView::Eqv(merged[k]));
                        assert(member_eqv_class(s, ps, e));
                        assert(member_combined(s, ps, e, equivalences));
                        assert(qs.contains(e));
                        lemma_holds(s, e, atoms);
                    }
                }
                assert forall|m: Id| #[trigger] ps.contains(m) implies s.holds(m, atoms) by {
                    if equivalences && s.formulae[m as int] is Eqv {
                        lemma_class_listed(s, ps, m);
                        let k = choose|k: int|
                            0 <= k < classes.len() && #[trigger] classes[k] == eqv_class_of(s, m);
                        assert(uniform(s, classes[k], atoms));
                        lemma_holds(s, m, atoms);
                    } else {
                        assert(member_kept(s, ps, m, equivalences));
                        assert(member_combined(s, ps, m, equivalences));
                        assert(qs.contains(m));
                    }
                }
            }
        },
        _ => {},
    }
}

} // verus!
