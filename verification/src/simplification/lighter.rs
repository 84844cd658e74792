//! Every rewrite gives back the formula it was given, or a lighter one.

use crate::collections::{
    ascending, inserted, joined, lemma_ascending_unique, lemma_inserted, lemma_joined, Id,
};
use crate::formula::FormulaView;
use crate::measure::{
    lemma_ascending_distinct, lemma_proper_subset, lemma_sum_dominated, lemma_sum_inserted,
    lemma_sum_joined, lemma_sum_remove, lemma_sum_subset, lemma_weight_unfold, sum,
};
use crate::simplification::propositional::{
    contradicted,
    first_paired,
    flattened,
    has_false,
    has_true,
    implications_combined,
    is_and,
    lemma_lifted_step,
    member_folded,
    member_lifted_and,
    member_lifted_or,
    member_negated,
    pair_of,
    propagated,
    trivialised,
    unnegated,
};
use crate::store::{lemma_interning, StoreView};
use vstd::prelude::*;

verus! {

/// The members of a stored connective are formulae of the store, each of
/// positive weight.
pub proof fn lemma_members_valid(s: StoreView, f: Id, ps: Seq<Id>)
    requires
        s.wf(),
        f < s.formulae.len(),
        s.formulae[f as int] == FormulaView::And(ps) || s.formulae[f as int] == FormulaView::Or(ps)
            || s.formulae[f as int] == FormulaView::Eqv(ps),
    ensures
        ascending(ps),
        forall|x: Id| ps.contains(x) ==> x < f && s.weight(x) >= 1,
{
    assert(s.formula_ok(s.formulae[f as int], f as int));
    assert forall|x: Id| ps.contains(x) implies x < f && s.weight(x) >= 1 by {
        let k = choose|k: int| 0 <= k < ps.len() && ps[k] == x;
        lemma_weight_unfold(s, x);
    }
}

/// A connective that keeps some of the members of another of its kind is
/// the same formula, or lighter.
pub proof fn lemma_fewer_members(s: StoreView, f: Id, r: Id, ps: Seq<Id>, qs: Seq<Id>, extra: nat)
    requires
        s.wf(),
        f < s.formulae.len(),
        r < s.formulae.len(),
        s.formulae[f as int] == FormulaView::And(ps) || s.formulae[f as int] == FormulaView::Or(ps)
            || s.formulae[f as int] == FormulaView::Eqv(ps),
        ascending(qs),
        forall|x: Id| qs.contains(x) ==> ps.contains(x),
    ensures
        sum(qs, s.member_weight(extra)) <= sum(ps, s.member_weight(extra)),
        qs != ps ==> sum(qs, s.member_weight(extra)) < sum(ps, s.member_weight(extra)),
{
    lemma_members_valid(s, f, ps);
    lemma_sum_subset(qs, ps, s.member_weight(extra));
    if qs != ps {
        lemma_proper_subset(qs, ps);
        let x = choose|x: Id| ps.contains(x) && !qs.contains(x);
        assert(ps.contains(x) && !qs.contains(x) && s.member_weight(extra)(x) > 0);
    }
}

/// Boolean propagation gives back its formula, or a lighter one.
pub proof fn lemma_propagated_lighter(s: StoreView, f: Id, r: Id)
    requires
        s.wf(),
        f < s.formulae.len(),
        r < s.formulae.len(),
        propagated(s, f, r),
    ensures
        r == f || s.weight(r) < s.weight(f),
{
    lemma_weight_unfold(s, f);
    lemma_weight_unfold(s, r);
    match s.formulae[f as int] {
        FormulaView::Not(p) => {
            lemma_weight_unfold(s, p);
        },
        FormulaView::Imp(p, q) => {
            lemma_weight_unfold(s, p);
            lemma_weight_unfold(s, q);
        },
        FormulaView::And(ps) => {
            lemma_members_valid(s, f, ps);
            if has_false(s, ps) {
                let x = choose|x: Id| ps.contains(x) && s.is(x, FormulaView::F);
                let k = choose|k: int| 0 <= k < ps.len() && ps[k] == x;
                lemma_sum_remove(ps, s.member_weight(0), k);
            } else {
                match s.formulae[r as int] {
                    FormulaView::And(qs) => {
                        lemma_fewer_members(s, f, r, ps, qs, 0);
                        if qs == ps {
                            lemma_interning(s, f, r);
                        }
                    },
                    _ => {},
                }
            }
        },
        FormulaView::Or(ps) => {
            lemma_members_valid(s, f, ps);
            if has_true(s, ps) {
                let x = choose|x: Id| ps.contains(x) && s.is(x, FormulaView::T);
                let k = choose|k: int| 0 <= k < ps.len() && ps[k] == x;
                lemma_sum_remove(ps, s.member_weight(0), k);
            } else {
                match s.formulae[r as int] {
                    FormulaView::Or(qs) => {
                        lemma_fewer_members(s, f, r, ps, qs, 0);
                        if qs == ps {
                            lemma_interning(s, f, r);
                        }
                    },
                    _ => {},
                }
            }
        },
        FormulaView::Eqv(ps) => {
            lemma_members_valid(s, f, ps);
            if has_false(s, ps) {
                match s.formulae[r as int] {
                    FormulaView::And(qs) => {
                        lemma_negations_lighter(s, ps, qs);
                        let x = choose|x: Id| ps.contains(x) && s.is(x, FormulaView::F);
                        let k = choose|k: int| 0 <= k < ps.len() && ps[k] == x;
                        lemma_sum_remove(ps, s.member_weight(2), k);
                    },
                    _ => {},
                }
            } else {
                match s.formulae[r as int] {
                    FormulaView::Eqv(qs) => {
                        lemma_fewer_members(s, f, r, ps, qs, 2);
                        if qs == ps {
                            lemma_interning(s, f, r);
                        }
                    },
                    _ => {},
                }
            }
        },
        _ => {},
    }
}

/// The formula that `y` negates, if it is a negation.
pub open spec fn negand(s: StoreView, y: Id) -> Id {
    match s.formulae[y as int] {
        FormulaView::Not(x) => x,
        _ => 0,
    }
}

/// The negations of the members of an equivalence class weigh, as members
/// of a conjunction, less than the members of the class, unless there are
/// none.
pub proof fn lemma_negations_lighter(s: StoreView, ps: Seq<Id>, qs: Seq<Id>)
    requires
        s.wf(),
        ascending(ps),
        forall|x: Id| ps.contains(x) ==> x < s.formulae.len(),
        ascending(qs),
        forall|y: Id| qs.contains(y) <==> member_negated(s, ps, y),
    ensures
        sum(qs, s.member_weight(0)) <= sum(ps, s.member_weight(2)),
        qs.len() > 0 ==> sum(qs, s.member_weight(0)) < sum(ps, s.member_weight(2)),
{
    lemma_ascending_distinct(ps);
    lemma_ascending_distinct(qs);
    let h = |y: Id| negand(s, y);
    let qval = s.member_weight(0);
    let pval = s.member_weight(2);
    assert forall|y: Id| qs.contains(y) implies ps.contains(h(y)) && qval(y) < pval(h(y)) by {
        assert(member_negated(s, ps, y));
        let x = choose|x: Id| ps.contains(x) && s.is(y, FormulaView::Not(x));
        lemma_weight_unfold(s, y);
    }
    assert forall|a: Id, b: Id| qs.contains(a) && qs.contains(b) && h(a) == h(b) implies a
        == b by {
        assert(member_negated(s, ps, a));
        assert(member_negated(s, ps, b));
        lemma_interning(s, a, b);
    }
    lemma_sum_dominated(qs, qval, ps, pval, h);
    if qs.len() > 0 {
        assert(qs.contains(qs[0]));
        assert(qs.contains(qs[0]) && qval(qs[0]) < pval(h(qs[0])));
    }
}

/// The search for contradictions gives back its formula, or a lighter one.
pub proof fn lemma_contradicted_lighter(s: StoreView, f: Id, r: Id)
    requires
        s.wf(),
        f < s.formulae.len(),
        r < s.formulae.len(),
        contradicted(s, f, r),
    ensures
        r == f || s.weight(r) < s.weight(f),
{
    lemma_weight_unfold(s, f);
    lemma_weight_unfold(s, r);
}

/// The removal of a double negation gives back its formula, or a lighter
/// one.
pub proof fn lemma_unnegated_lighter(s: StoreView, f: Id, r: Id)
    requires
        s.wf(),
        f < s.formulae.len(),
        r < s.formulae.len(),
        unnegated(s, f, r),
    ensures
        r == f || s.weight(r) < s.weight(f),
{
    lemma_weight_unfold(s, f);
    match s.formulae[f as int] {
        FormulaView::Not(p) => {
            lemma_weight_unfold(s, p);
        },
        _ => {},
    }
}

/// The rewriting of trivial connectives gives back its formula, or a
/// lighter one.
pub proof fn lemma_trivialised_lighter(s: StoreView, f: Id, r: Id)
    requires
        s.wf(),
        f < s.formulae.len(),
        r < s.formulae.len(),
        trivialised(s, f, r),
    ensures
        r == f || s.weight(r) < s.weight(f),
{
    lemma_weight_unfold(s, f);
    lemma_weight_unfold(s, r);
    match s.formulae[f as int] {
        FormulaView::And(ps) => {
            if ps.len() == 1 {
                assert(ps.drop_last() =~= Seq::<Id>::empty());
                assert(sum(ps.drop_last(), s.member_weight(0)) == 0);
            }
        },
        FormulaView::Or(ps) => {
            if ps.len() == 1 {
                assert(ps.drop_last() =~= Seq::<Id>::empty());
                assert(sum(ps.drop_last(), s.member_weight(0)) == 0);
            }
        },
        _ => {},
    }
}

/// An ascending sequence without one of its elements is ascending, and its
/// members are the others.
pub proof fn lemma_remove_ascending(ps: Seq<Id>, k: int)
    requires
        ascending(ps),
        0 <= k < ps.len(),
    ensures
        ascending(ps.remove(k)),
        forall|x: Id| ps.remove(k).contains(x) <==> (ps.contains(x) && x != ps[k]),
{
    let rest = ps.remove(k);
    assert forall|i: int, j: int| 0 <= i < j < rest.len() implies rest[i] < rest[j] by {
        let ii = if i < k { i } else { i + 1 };
        let jj = if j < k { j } else { j + 1 };
        assert(rest[i] == ps[ii] && rest[j] == ps[jj]);
    }
    assert forall|x: Id| rest.contains(x) <==> (ps.contains(x) && x != ps[k]) by {
        if rest.contains(x) {
            let i = choose|i: int| 0 <= i < rest.len() && rest[i] == x;
            let ii = if i < k { i } else { i + 1 };
            assert(ps[ii] == x);
            if ii < k {
                assert(ps[ii] < ps[k]);
            } else {
                assert(ps[k] < ps[ii]);
            }
        }
        if ps.contains(x) && x != ps[k] {
            let i = choose|i: int| 0 <= i < ps.len() && ps[i] == x;
            if i < k {
                assert(rest[i] == x);
            } else {
                assert(rest[i - 1] == x);
            }
        }
    }
}

/// The pairing of implications gives back its formula, or a lighter one.
pub proof fn lemma_implications_lighter(s: StoreView, f: Id, r: Id)
    requires
        s.wf(),
        f < s.formulae.len(),
        r < s.formulae.len(),
        implications_combined(s, f, r),
    ensures
        r == f || s.weight(r) < s.weight(f),
{
    lemma_weight_unfold(s, f);
    lemma_weight_unfold(s, r);
    match s.formulae[f as int] {
        FormulaView::And(ps) => {
            if exists|i: int| first_paired(s, ps, i) {
                let i = choose|i: int|
                    first_paired(s, ps, i) && is_and(s, r, |z: Id| member_folded(s, ps, ps[i], z));
                let x = ps[i];
                lemma_members_valid(s, f, ps);
                assert(ps.contains(x));
                lemma_weight_unfold(s, x);
                match s.formulae[r as int] {
                    FormulaView::And(qs) => {
                        match s.formulae[x as int] {
                            FormulaView::Imp(l, rr) => {
                                let y = choose|y: Id|
                                    ps.contains(y) && s.is(y, FormulaView::Imp(rr, l));
                                lemma_weight_unfold(s, y);
                                lemma_weight_unfold(s, l);
                                lemma_weight_unfold(s, rr);
                                let val = s.member_weight(0);
                                let once = ps.remove(i);
                                lemma_remove_ascending(ps, i);
                                lemma_sum_remove(ps, val, i);
                                let base = if y == x {
                                    once
                                } else {
                                    let j = choose|j: int| 0 <= j < once.len() && once[j] == y;
                                    once.remove(j)
                                };
                                if y != x {
                                    assert(once.contains(y));
                                    let j = choose|j: int| 0 <= j < once.len() && once[j] == y;
                                    lemma_remove_ascending(once, j);
                                    lemma_sum_remove(once, val, j);
                                } else {
                                    lemma_interning(s, x, y);
                                }
                                assert forall|z: Id| base.contains(z) <==> (ps.contains(z) && z
                                    != x && z != y) by {}
                                if exists|e: Id| s.is(e, FormulaView::Eqv(pair_of(l, rr))) {
                                    let e = choose|e: Id| s.is(e, FormulaView::Eqv(pair_of(l, rr)));
                                    lemma_inserted(base, e);
                                    assert forall|z: Id| qs.contains(z) <==> inserted(
                                        base,
                                        e,
                                    ).contains(z) by {
                                        assert(qs.contains(z) <==> member_folded(s, ps, x, z));
                                        lemma_interning(s, z, y);
                                        lemma_interning(s, z, e);
                                    }
                                    lemma_ascending_unique(qs, inserted(base, e));
                                    lemma_sum_inserted(base, e, val);
                                    lemma_weight_unfold(s, e);
                                    lemma_pair_weight(s, l, rr);
                                } else {
                                    assert forall|z: Id| qs.contains(z) <==> base.contains(z) by {
                                        assert(qs.contains(z) <==> member_folded(s, ps, x, z));
                                        lemma_interning(s, z, y);
                                    }
                                    lemma_ascending_unique(qs, base);
                                }
                            },
                            _ => {},
                        }
                    },
                    _ => {},
                }
            }
        },
        _ => {},
    }
}

/// The weight, as members of an equivalence class, of the class of `l` and
/// `r`.
pub proof fn lemma_pair_weight(s: StoreView, l: Id, r: Id)
    ensures
        sum(pair_of(l, r), s.member_weight(2)) == if l == r {
            s.weight(l) + 2
        } else {
            s.weight(l) + s.weight(r) + 4
        },
{
    let val = s.member_weight(2);
    let pair = pair_of(l, r);
    if l == r {
        assert(pair.drop_last() =~= Seq::<Id>::empty());
        assert(sum(pair.drop_last(), val) == 0);
    } else {
        let one = pair.drop_last();
        assert(one.len() == 1);
        assert(one.drop_last() =~= Seq::<Id>::empty());
        assert(sum(one.drop_last(), val) == 0);
        assert(sum(one, val) == val(one.last()));
    }
}

/// The members of `ps` with each conjunction among them (or, with
/// `disjunction`, each disjunction) replaced by its members, in ascending
/// order.
pub open spec fn lifted_seq(s: StoreView, ps: Seq<Id>, disjunction: bool) -> Seq<Id>
    decreases ps.len(),
{
    if ps.len() == 0 {
        Seq::empty()
    } else {
        let rest = lifted_seq(s, ps.drop_last(), disjunction);
        match s.formulae[ps.last() as int] {
            FormulaView::And(zs) => if disjunction {
                inserted(rest, ps.last())
            } else {
                joined(rest, zs)
            },
            FormulaView::Or(zs) => if disjunction {
                joined(rest, zs)
            } else {
                inserted(rest, ps.last())
            },
            _ => inserted(rest, ps.last()),
        }
    }
}

/// Whether `x` is a conjunction (or, with `disjunction`, a disjunction).
pub open spec fn is_nested(s: StoreView, x: Id, disjunction: bool) -> bool {
    if disjunction {
        s.formulae[x as int] is Or
    } else {
        s.formulae[x as int] is And
    }
}

/// What `lifted_seq` holds, and what it weighs.
pub proof fn lemma_lifted_seq(s: StoreView, ps: Seq<Id>, disjunction: bool)
    requires
        s.wf(),
        forall|i: int| 0 <= i < ps.len() ==> ps[i] < s.formulae.len(),
    ensures
        ascending(lifted_seq(s, ps, disjunction)),
        forall|x: Id|
            lifted_seq(s, ps, disjunction).contains(x) <==> (if disjunction {
                member_lifted_or(s, ps, x)
            } else {
                member_lifted_and(s, ps, x)
            }),
        sum(lifted_seq(s, ps, disjunction), s.member_weight(0)) <= sum(ps, s.member_weight(0)),
        (exists|x: Id| ps.contains(x) && is_nested(s, x, disjunction)) ==> sum(
            lifted_seq(s, ps, disjunction),
            s.member_weight(0),
        ) < sum(ps, s.member_weight(0)),
    decreases ps.len(),
{
    let val = s.member_weight(0);
    let out = lifted_seq(s, ps, disjunction);
    if ps.len() == 0 {
        assert forall|x: Id|
            out.contains(x) <==> (if disjunction {
                member_lifted_or(s, ps, x)
            } else {
                member_lifted_and(s, ps, x)
            }) by {
            if member_lifted_or(s, ps, x) && !ps.contains(x) {
                let y = choose|y: Id|
                    ps.contains(y) && (match s.formulae[y as int] {
                        FormulaView::Or(zs) => zs.contains(x),
                        _ => false,
                    });
            }
            if member_lifted_and(s, ps, x) && !ps.contains(x) {
                let y = choose|y: Id|
                    ps.contains(y) && (match s.formulae[y as int] {
                        FormulaView::And(zs) => zs.contains(x),
                        _ => false,
                    });
            }
        }
    } else {
        let front = ps.drop_last();
        let last = ps.last();
        let rest = lifted_seq(s, front, disjunction);
        assert forall|i: int| 0 <= i < front.len() implies front[i] < s.formulae.len() by {
            assert(front[i] == ps[i]);
        }
        lemma_lifted_seq(s, front, disjunction);
        assert(ps =~= front.push(last));
        crate::collections::lemma_push_contains(front, last);
        assert(last == ps[ps.len() - 1]);
        lemma_weight_unfold(s, last);
        let nested = is_nested(s, last, disjunction);
        match s.formulae[last as int] {
            FormulaView::And(zs) => {
                if !disjunction {
                    lemma_joined(rest, zs);
                    lemma_sum_joined(rest, zs, val);
                } else {
                    lemma_inserted(rest, last);
                    lemma_sum_inserted(rest, last, val);
                }
            },
            FormulaView::Or(zs) => {
                if disjunction {
                    lemma_joined(rest, zs);
                    lemma_sum_joined(rest, zs, val);
                } else {
                    lemma_inserted(rest, last);
                    lemma_sum_inserted(rest, last, val);
                }
            },
            _ => {
                lemma_inserted(rest, last);
                lemma_sum_inserted(rest, last, val);
            },
        }
        assert forall|x: Id|
            out.contains(x) <==> (if disjunction {
                member_lifted_or(s, ps, x)
            } else {
                member_lifted_and(s, ps, x)
            }) by {
            lemma_lifted_step(s, front, ps, last, x);
            assert(rest.contains(x) <==> (if disjunction {
                member_lifted_or(s, front, x)
            } else {
                member_lifted_and(s, front, x)
            }));
            match s.formulae[last as int] {
                FormulaView::And(zs) => {
                    if !disjunction {
                        lemma_joined(rest, zs);
                        assert(out == joined(rest, zs));
                    } else {
                        lemma_inserted(rest, last);
                        assert(out == inserted(rest, last));
                    }
                },
                FormulaView::Or(zs) => {
                    if disjunction {
                        lemma_joined(rest, zs);
                        assert(out == joined(rest, zs));
                    } else {
                        lemma_inserted(rest, last);
                        assert(out == inserted(rest, last));
                    }
                },
                _ => {
                    lemma_inserted(rest, last);
                    assert(out == inserted(rest, last));
                },
            }
        }
        if exists|x: Id| ps.contains(x) && is_nested(s, x, disjunction) {
            let x = choose|x: Id| ps.contains(x) && is_nested(s, x, disjunction);
            if x != last {
                assert(front.contains(x) && is_nested(s, x, disjunction));
            }
        }
    }
}

/// Flattening gives back its formula, or a lighter one.
pub proof fn lemma_flattened_lighter(s: StoreView, f: Id, r: Id)
    requires
        s.wf(),
        f < s.formulae.len(),
        r < s.formulae.len(),
        flattened(s, f, r),
    ensures
        r == f || s.weight(r) < s.weight(f),
{
    lemma_weight_unfold(s, f);
    lemma_weight_unfold(s, r);
    match s.formulae[f as int] {
        FormulaView::And(ps) => {
            lemma_members_valid(s, f, ps);
            assert forall|i: int| 0 <= i < ps.len() implies ps[i] < s.formulae.len() by {
                assert(ps.contains(ps[i]));
            }
            lemma_lifted_seq(s, ps, false);
            match s.formulae[r as int] {
                FormulaView::And(qs) => {
                    lemma_ascending_unique(qs, lifted_seq(s, ps, false));
                    if !(exists|x: Id| ps.contains(x) && is_nested(s, x, false)) {
                        assert forall|x: Id| qs.contains(x) <==> ps.contains(x) by {
                            if member_lifted_and(s, ps, x) && !ps.contains(x) {
                                let y = choose|y: Id|
                                    ps.contains(y) && (match s.formulae[y as int] {
                                        FormulaView::And(zs) => zs.contains(x),
                                        _ => false,
                                    });
                                assert(is_nested(s, y, false));
                            }
                            if ps.contains(x) {
                                assert(!is_nested(s, x, false));
                            }
                        }
                        lemma_ascending_unique(qs, ps);
                        lemma_interning(s, f, r);
                    }
                },
                _ => {},
            }
        },
        FormulaView::Or(ps) => {
            lemma_members_valid(s, f, ps);
            assert forall|i: int| 0 <= i < ps.len() implies ps[i] < s.formulae.len() by {
                assert(ps.contains(ps[i]));
            }
            lemma_lifted_seq(s, ps, true);
            match s.formulae[r as int] {
                FormulaView::Or(qs) => {
                    lemma_ascending_unique(qs, lifted_seq(s, ps, true));
                    if !(exists|x: Id| ps.contains(x) && is_nested(s, x, true)) {
                        assert forall|x: Id| qs.contains(x) <==> ps.contains(x) by {
                            if member_lifted_or(s, ps, x) && !ps.contains(x) {
                                let y = choose|y: Id|
                                    ps.contains(y) && (match s.formulae[y as int] {
                                        FormulaView::Or(zs) => zs.contains(x),
                                        _ => false,
                                    });
                                assert(is_nested(s, y, true));
                            }
                            if ps.contains(x) {
                                assert(!is_nested(s, x, true));
                            }
                        }
                        lemma_ascending_unique(qs, ps);
                        lemma_interning(s, f, r);
                    }
                },
                _ => {},
            }
        },
        _ => {},
    }
}

} // verus!
