//! The rules are sound for propositional formulae: under every assignment
//! of truth values to the atoms under which a formula holds, a member of
//! each of its inferences holds too. So a formula is refuted once every
//! member of one of its inferences is.

use crate::collections::{ascending, Id};
use crate::deduction::making::lemma_removed;
use crate::deduction::engine::{
    deductions_of, is_deduction, is_inference, simplified_image, simplified_to,
};
use crate::deduction::making::belongs;
use crate::deduction::rules::{
    and_not,
    and_of_negations,
    and_of_three,
    complete_rule,
    conjoined,
    differs_at,
    differs_before,
    has_differs_at,
    negates,
    negation_rule,
    negations_of,
    removed,
    with_background,
    Instance,
};
use crate::deduction::weakening::is_weakening;
use crate::simplification::tame::{all_sober, lemma_sober, lemma_sober_tame, sober};
use crate::deduction::weakening::{weakened, Weakening};
use crate::formula::FormulaView;
use crate::simplification::lighter::lemma_members_valid;
use crate::simplification::propositional::{member_negated, pair_of};
use crate::simplification::sound::{all_hold, lemma_holds, some_holds};
use crate::store::StoreView;
use crate::substitution::held;
use crate::symbol::Symbol;
use vstd::prelude::*;

verus! {

/// The members of the class of two formulae are the two.
pub proof fn lemma_pair_members(a: Id, b: Id)
    ensures
        pair_of(a, b).contains(a),
        pair_of(a, b).contains(b),
        forall|z: Id| pair_of(a, b).contains(z) ==> z == a || z == b,
{
    let pair = pair_of(a, b);
    if a < b {
        assert(pair[0] == a && pair[1] == b);
    } else if a == b {
        assert(pair[0] == a);
    } else {
        assert(pair[0] == b && pair[1] == a);
    }
    assert forall|z: Id| pair.contains(z) implies z == a || z == b by {
        let k = choose|k: int| 0 <= k < pair.len() && pair[k] == z;
    }
}

/// The conjunction of a formula and the negation of another holds exactly
/// if the first holds and the second does not.
pub proof fn lemma_and_not(s: StoreView, z: Id, a: Id, b: Id, atoms: spec_fn(Id) -> bool)
    requires
        s.wf(),
        and_not(s, z, a, b),
    ensures
        s.holds(z, atoms) == (s.holds(a, atoms) && !s.holds(b, atoms)),
{
    let n = choose|n: Id| negates(s, n, b) && s.is(z, FormulaView::And(pair_of(a, n)));
    lemma_holds(s, z, atoms);
    lemma_holds(s, n, atoms);
    lemma_pair_members(a, n);
    let pair = pair_of(a, n);
    if s.holds(a, atoms) && !s.holds(b, atoms) {
        assert forall|x: Id| #[trigger] pair.contains(x) implies s.holds(x, atoms) by {}
    }
    if all_hold(s, pair, atoms) {
        assert(pair.contains(a) && pair.contains(n));
    }
}

/// A conjunction of three formulae holds exactly if the three hold.
pub proof fn lemma_and_of_three(
    s: StoreView,
    z: Id,
    a: Id,
    b: Id,
    c: Id,
    atoms: spec_fn(Id) -> bool,
)
    requires
        s.wf(),
        and_of_three(s, z, a, b, c),
    ensures
        s.holds(z, atoms) == (s.holds(a, atoms) && s.holds(b, atoms) && s.holds(c, atoms)),
{
    let qs = choose|qs: Seq<Id>|
        ascending(qs) && s.is(z, FormulaView::And(qs)) && forall|x: Id|
            qs.contains(x) <==> (x == a || x == b || x == c);
    lemma_holds(s, z, atoms);
    if all_hold(s, qs, atoms) {
        assert(qs.contains(a) && qs.contains(b) && qs.contains(c));
    }
}

/// A conjunction of some members and one more formula holds exactly if
/// they all hold.
pub proof fn lemma_with_background(
    s: StoreView,
    z: Id,
    bg: Seq<Id>,
    g: Id,
    atoms: spec_fn(Id) -> bool,
)
    requires
        s.wf(),
        with_background(s, z, bg, g),
    ensures
        s.holds(z, atoms) == (all_hold(s, bg, atoms) && s.holds(g, atoms)),
{
    let qs = choose|qs: Seq<Id>|
        ascending(qs) && s.is(z, FormulaView::And(qs)) && forall|x: Id|
            qs.contains(x) <==> (bg.contains(x) || x == g);
    lemma_holds(s, z, atoms);
    if all_hold(s, qs, atoms) {
        assert(qs.contains(g));
        assert forall|x: Id| #[trigger] bg.contains(x) implies s.holds(x, atoms) by {
            assert(qs.contains(x));
        }
    }
    if all_hold(s, bg, atoms) && s.holds(g, atoms) {
        assert forall|x: Id| #[trigger] qs.contains(x) implies s.holds(x, atoms) by {
            if x != g {
                assert(bg.contains(x));
            }
        }
    }
}

/// Where the members of a class do not all have the same truth value, a
/// member and the one after it differ.
pub proof fn lemma_neighbours_differ(s: StoreView, ps: Seq<Id>, atoms: spec_fn(Id) -> bool, n: int)
    requires
        0 <= n < ps.len(),
        forall|i: int|
            0 <= i < n ==> s.holds(#[trigger] ps[i], atoms) == s.holds(ps[i + 1], atoms),
    ensures
        forall|i: int| 0 <= i <= n ==> s.holds(#[trigger] ps[i], atoms) == s.holds(ps[0], atoms),
    decreases n,
{
    if n > 0 {
        lemma_neighbours_differ(s, ps, atoms, n - 1);
        assert(s.holds(ps[n - 1], atoms) == s.holds(ps[n - 1 + 1], atoms));
    }
}

/// The rule for a negation is sound: where the negated formula does not
/// hold, a member of the inference holds.
pub proof fn lemma_negation_sound(
    s: StoreView,
    g: Id,
    k: Instance,
    inf: Seq<Id>,
    atoms: spec_fn(Id) -> bool,
)
    requires
        s.wf(),
        s.propositional(g),
        negation_rule(s, g, k, inf),
        !s.holds(g, atoms),
    ensures
        some_holds(s, inf, atoms),
{
    lemma_holds(s, g, atoms);
    assert(s.formula_ok(s.formulae[g as int], g as int));
    match s.formulae[g as int] {
        FormulaView::Not(h) => {
            assert(inf[0] == h);
            assert(inf.contains(h) && s.holds(h, atoms));
        },
        FormulaView::Imp(p, q) => {
            let z = choose|z: Id| and_not(s, z, p, q) && inf == seq![z];
            lemma_and_not(s, z, p, q, atoms);
            assert(inf[0] == z);
            assert(inf.contains(z) && s.holds(z, atoms));
        },
        FormulaView::Or(ps) => {
            let z = choose|z: Id| and_of_negations(s, z, ps) && inf == seq![z];
            let ns = choose|ns: Seq<Id>|
                ascending(ns) && negations_of(s, ps, ns) && s.is(z, FormulaView::And(ns));
            lemma_holds(s, z, atoms);
            assert forall|x: Id| #[trigger] ns.contains(x) implies s.holds(x, atoms) by {
                assert(held(ns, x));
                assert(member_negated(s, ps, x));
                let p = choose|p: Id| ps.contains(p) && s.is(x, FormulaView::Not(p));
                lemma_holds(s, x, atoms);
                assert(!(ps.contains(p) && s.holds(p, atoms)));
            }
            assert(inf[0] == z);
            assert(inf.contains(z) && s.holds(z, atoms));
        },
        FormulaView::And(ps) => {
            let p = choose|p: Id| #[trigger] ps.contains(p) && !s.holds(p, atoms);
            let z = choose|z: Id| inf.contains(z) && negates(s, z, p);
            lemma_holds(s, z, atoms);
            assert(inf.contains(z) && s.holds(z, atoms));
        },
        FormulaView::Eqv(ps) => {
            lemma_members_valid(s, g, ps);
            let x = choose|x: Id, y: Id|
                #[trigger] ps.contains(x) && #[trigger] ps.contains(y) && s.holds(x, atoms)
                    != s.holds(y, atoms);
            let a = x.0;
            let b = x.1;
            let ia = choose|i: int| 0 <= i < ps.len() && ps[i] == a;
            let ib = choose|i: int| 0 <= i < ps.len() && ps[i] == b;
            if forall|i: int|
                0 <= i < ps.len() - 1 ==> s.holds(#[trigger] ps[i], atoms) == s.holds(
                    ps[i + 1],
                    atoms,
                ) {
                lemma_neighbours_differ(s, ps, atoms, ps.len() - 1);
                assert(s.holds(ps[ia], atoms) == s.holds(ps[0], atoms));
                assert(s.holds(ps[ib], atoms) == s.holds(ps[0], atoms));
            }
            let i = choose|i: int|
                0 <= i < ps.len() - 1 && s.holds(#[trigger] ps[i], atoms) != s.holds(
                    ps[i + 1],
                    atoms,
                );
            let forward = s.holds(ps[i], atoms);
            assert(has_differs_at(s, ps, i, forward, inf));
            let z = choose|z: Id| inf.contains(z) && differs_at(s, ps, i, forward, z);
            if forward {
                lemma_and_not(s, z, ps[i], ps[i + 1], atoms);
            } else {
                lemma_and_not(s, z, ps[i + 1], ps[i], atoms);
            }
            assert(inf.contains(z) && s.holds(z, atoms));
        },
        _ => {},
    }
}

/// The complete rules are sound for propositional formulae: where the
/// formula holds, a member of the inference holds.
pub proof fn lemma_complete_sound(
    s: StoreView,
    symbols: Seq<(Symbol, usize)>,
    f: Id,
    k: Instance,
    inf: Seq<Id>,
    atoms: spec_fn(Id) -> bool,
)
    requires
        s.wf(),
        s.propositional(f),
        complete_rule(s, symbols, f, k, inf),
        s.holds(f, atoms),
    ensures
        some_holds(s, inf, atoms),
    decreases f,
{
    lemma_holds(s, f, atoms);
    assert(s.formula_ok(s.formulae[f as int], f as int));
    match s.formulae[f as int] {
        FormulaView::Not(g) => {
            lemma_negation_sound(s, g, k, inf, atoms);
        },
        FormulaView::Imp(p, q) => {
            let n = choose|n: Id| negates(s, n, p) && inf == pair_of(n, q);
            lemma_pair_members(n, q);
            lemma_holds(s, n, atoms);
            if s.holds(p, atoms) {
                assert(inf.contains(q) && s.holds(q, atoms));
            } else {
                assert(inf.contains(n) && s.holds(n, atoms));
            }
        },
        FormulaView::Or(ps) => {},
        FormulaView::And(ps) => {
            lemma_members_valid(s, f, ps);
            match k {
                Instance::Conjunct(p, sub) => {
                    let sd = choose|sd: Seq<Id>|
                        complete_rule(s, symbols, p, *sub, sd) && #[trigger] conjoined(
                            s,
                            removed(ps, p),
                            sd,
                            inf,
                        );
                    let i = choose|i: int| 0 <= i < ps.len() && ps[i] == p;
                    assert(s.propositional(ps[i]));
                    assert(ps.contains(p) && s.holds(p, atoms));
                    lemma_complete_sound(s, symbols, p, *sub, sd, atoms);
                    let g = choose|g: Id| #[trigger] sd.contains(g) && s.holds(g, atoms);
                    let z = choose|z: Id|
                        inf.contains(z) && with_background(s, z, removed(ps, p), g);
                    lemma_with_background(s, z, removed(ps, p), g, atoms);
                    lemma_removed(ps, p);
                    assert forall|x: Id| #[trigger] removed(ps, p).contains(x) implies s.holds(
                        x,
                        atoms,
                    ) by {
                        assert(ps.contains(x));
                    }
                    assert(inf.contains(z) && s.holds(z, atoms));
                },
                _ => {},
            }
        },
        FormulaView::Eqv(ps) => {
            lemma_members_valid(s, f, ps);
            match k {
                Instance::Pair(i) => {
                    let p = ps[i];
                    let q = ps[i + 1];
                    let w = choose|rest: Id, np: Id, nq: Id, both: Id, neither: Id|
                        s.is(rest, FormulaView::Eqv(removed(ps, p))) && negates(s, np, p)
                            && negates(s, nq, q) && and_of_three(s, both, rest, p, q)
                            && and_of_three(s, neither, rest, np, nq) && inf == pair_of(
                            both,
                            neither,
                        );
                    let rest = w.0;
                    let np = w.1;
                    let nq = w.2;
                    let both = w.3;
                    let neither = w.4;
                    lemma_and_of_three(s, both, rest, p, q, atoms);
                    lemma_and_of_three(s, neither, rest, np, nq, atoms);
                    lemma_holds(s, rest, atoms);
                    lemma_holds(s, np, atoms);
                    lemma_holds(s, nq, atoms);
                    lemma_removed(ps, p);
                    lemma_pair_members(both, neither);
                    assert(ps.contains(p) && ps.contains(q));
                    assert(s.holds(p, atoms) == s.holds(q, atoms));
                    assert forall|x: Id, y: Id| #[trigger]
                        removed(ps, p).contains(x) && #[trigger] removed(ps, p).contains(
                            y,
                        ) implies s.holds(x, atoms) == s.holds(y, atoms) by {
                        assert(ps.contains(x) && ps.contains(y));
                    }
                    if s.holds(p, atoms) {
                        assert(inf.contains(both) && s.holds(both, atoms));
                    } else {
                        assert(inf.contains(neither) && s.holds(neither, atoms));
                    }
                },
                _ => {},
            }
        },
        _ => {},
    }
}

/// The weakening rules are sound for propositional formulae: where the
/// formula holds, what a weakening rule makes of it holds.
pub proof fn lemma_weakened_sound(
    s: StoreView,
    f: Id,
    k: Weakening,
    w: Id,
    atoms: spec_fn(Id) -> bool,
)
    requires
        s.wf(),
        s.propositional(f),
        weakened(s, f, k, w),
        s.holds(f, atoms),
    ensures
        s.holds(w, atoms),
    decreases f,
{
    lemma_holds(s, f, atoms);
    assert(s.formula_ok(s.formulae[f as int], f as int));
    match s.formulae[f as int] {
        FormulaView::And(ps) => {
            lemma_members_valid(s, f, ps);
            match k {
                Weakening::Drop(p) => {
                    lemma_holds(s, w, atoms);
                    lemma_removed(ps, p);
                    assert forall|x: Id| #[trigger] removed(ps, p).contains(x) implies s.holds(
                        x,
                        atoms,
                    ) by {
                        assert(ps.contains(x));
                    }
                },
                Weakening::Inside(p, sub) => {
                    let q = choose|q: Id|
                        weakened(s, p, *sub, q) && #[trigger] with_background(
                            s,
                            w,
                            removed(ps, p),
                            q,
                        );
                    let i = choose|i: int| 0 <= i < ps.len() && ps[i] == p;
                    assert(s.propositional(ps[i]));
                    assert(ps.contains(p) && s.holds(p, atoms));
                    lemma_weakened_sound(s, p, *sub, q, atoms);
                    lemma_with_background(s, w, removed(ps, p), q, atoms);
                    lemma_removed(ps, p);
                    assert forall|x: Id| #[trigger] removed(ps, p).contains(x) implies s.holds(
                        x,
                        atoms,
                    ) by {
                        assert(ps.contains(x));
                    }
                },
            }
        },
        FormulaView::Eqv(ps) => {
            lemma_members_valid(s, f, ps);
            match k {
                Weakening::Drop(p) => {
                    lemma_holds(s, w, atoms);
                    lemma_removed(ps, p);
                    assert forall|x: Id, y: Id| #[trigger]
                        removed(ps, p).contains(x) && #[trigger] removed(ps, p).contains(
                            y,
                        ) implies s.holds(x, atoms) == s.holds(y, atoms) by {
                        assert(ps.contains(x) && ps.contains(y));
                    }
                },
                _ => {},
            }
        },
        _ => {},
    }
}

/// The conjunction of a sober formula and the negation of another is
/// sober.
pub proof fn lemma_and_not_sober(s: StoreView, z: Id, a: Id, b: Id)
    requires
        s.wf(),
        and_not(s, z, a, b),
        sober(s, a),
        sober(s, b),
    ensures
        sober(s, z),
{
    let n = choose|n: Id| negates(s, n, b) && s.is(z, FormulaView::And(pair_of(a, n)));
    lemma_sober(s, z);
    lemma_sober(s, n);
    lemma_pair_members(a, n);
}

/// A conjunction of sober members and one more sober formula is sober.
pub proof fn lemma_with_background_sober(s: StoreView, z: Id, bg: Seq<Id>, g: Id)
    requires
        s.wf(),
        with_background(s, z, bg, g),
        all_sober(s, bg),
        sober(s, g),
    ensures
        sober(s, z),
{
    let qs = choose|qs: Seq<Id>|
        ascending(qs) && s.is(z, FormulaView::And(qs)) && forall|x: Id|
            qs.contains(x) <==> (bg.contains(x) || x == g);
    lemma_sober(s, z);
    assert forall|x: Id| #[trigger] qs.contains(x) implies sober(s, x) by {
        if x != g {
            assert(bg.contains(x));
        }
    }
}

/// A conjunction of three sober formulae is sober.
pub proof fn lemma_and_of_three_sober(s: StoreView, z: Id, a: Id, b: Id, c: Id)
    requires
        s.wf(),
        and_of_three(s, z, a, b, c),
        sober(s, a),
        sober(s, b),
        sober(s, c),
    ensures
        sober(s, z),
{
    let qs = choose|qs: Seq<Id>|
        ascending(qs) && s.is(z, FormulaView::And(qs)) && forall|x: Id|
            qs.contains(x) <==> (x == a || x == b || x == c);
    lemma_sober(s, z);
}

/// The members of the inference for the negation of a sober formula are
/// sober.
pub proof fn lemma_negation_sober(s: StoreView, g: Id, k: Instance, inf: Seq<Id>)
    requires
        s.wf(),
        sober(s, g),
        negation_rule(s, g, k, inf),
    ensures
        all_sober(s, inf),
{
    lemma_sober(s, g);
    assert(s.formula_ok(s.formulae[g as int], g as int));
    match s.formulae[g as int] {
        FormulaView::T => {
            let z = choose|z: Id| s.is(z, FormulaView::F) && inf == seq![z];
            assert forall|x: Id| #[trigger] inf.contains(x) implies sober(s, x) by {
                let j = choose|j: int| 0 <= j < inf.len() && inf[j] == x;
            }
        },
        FormulaView::Not(h) => {
            assert forall|x: Id| #[trigger] inf.contains(x) implies sober(s, x) by {
                let j = choose|j: int| 0 <= j < inf.len() && inf[j] == x;
            }
        },
        FormulaView::Imp(p, q) => {
            let z = choose|z: Id| and_not(s, z, p, q) && inf == seq![z];
            lemma_and_not_sober(s, z, p, q);
            assert forall|x: Id| #[trigger] inf.contains(x) implies sober(s, x) by {
                let j = choose|j: int| 0 <= j < inf.len() && inf[j] == x;
            }
        },
        FormulaView::Or(ps) => {
            let z = choose|z: Id| and_of_negations(s, z, ps) && inf == seq![z];
            let ns = choose|ns: Seq<Id>|
                ascending(ns) && negations_of(s, ps, ns) && s.is(z, FormulaView::And(ns));
            lemma_sober(s, z);
            assert forall|x: Id| #[trigger] ns.contains(x) implies sober(s, x) by {
                assert(held(ns, x));
                assert(member_negated(s, ps, x));
                let p = choose|p: Id| ps.contains(p) && s.is(x, FormulaView::Not(p));
                lemma_sober(s, x);
            }
            assert forall|x: Id| #[trigger] inf.contains(x) implies sober(s, x) by {
                let j = choose|j: int| 0 <= j < inf.len() && inf[j] == x;
            }
        },
        FormulaView::And(ps) => {
            assert forall|x: Id| #[trigger] inf.contains(x) implies sober(s, x) by {
                assert(held(inf, x));
                assert(member_negated(s, ps, x));
                let p = choose|p: Id| ps.contains(p) && s.is(x, FormulaView::Not(p));
                lemma_sober(s, x);
            }
        },
        FormulaView::Eqv(ps) => {
            lemma_members_valid(s, g, ps);
            assert forall|x: Id| #[trigger] inf.contains(x) implies sober(s, x) by {
                assert(held(inf, x));
                assert(differs_before(s, ps, ps.len() - 1, x));
                let w = choose|i: int, forward: bool|
                    0 <= i < ps.len() - 1 && #[trigger] differs_at(s, ps, i, forward, x);
                let i = w.0;
                assert(ps.contains(ps[i]) && ps.contains(ps[i + 1]));
                if w.1 {
                    lemma_and_not_sober(s, x, ps[i], ps[i + 1]);
                } else {
                    lemma_and_not_sober(s, x, ps[i + 1], ps[i]);
                }
            }
        },
        _ => {},
    }
}

/// The members of an inference that the complete rules give for a sober
/// formula are sober.
pub proof fn lemma_complete_sober(
    s: StoreView,
    symbols: Seq<(Symbol, usize)>,
    f: Id,
    k: Instance,
    inf: Seq<Id>,
)
    requires
        s.wf(),
        sober(s, f),
        complete_rule(s, symbols, f, k, inf),
    ensures
        all_sober(s, inf),
    decreases f,
{
    lemma_sober(s, f);
    assert(s.formula_ok(s.formulae[f as int], f as int));
    match s.formulae[f as int] {
        FormulaView::Not(g) => {
            lemma_negation_sober(s, g, k, inf);
        },
        FormulaView::Imp(p, q) => {
            let n = choose|n: Id| negates(s, n, p) && inf == pair_of(n, q);
            lemma_pair_members(n, q);
            lemma_sober(s, n);
        },
        FormulaView::Or(ps) => {},
        FormulaView::And(ps) => {
            lemma_members_valid(s, f, ps);
            match k {
                Instance::Conjunct(p, sub) => {
                    let sd = choose|sd: Seq<Id>|
                        complete_rule(s, symbols, p, *sub, sd) && #[trigger] conjoined(
                            s,
                            removed(ps, p),
                            sd,
                            inf,
                        );
                    assert(sober(s, p));
                    lemma_complete_sober(s, symbols, p, *sub, sd);
                    lemma_removed(ps, p);
                    assert forall|x: Id| #[trigger] removed(ps, p).contains(x) implies sober(
                        s,
                        x,
                    ) by {
                        assert(ps.contains(x));
                    }
                    assert forall|x: Id| #[trigger] inf.contains(x) implies sober(s, x) by {
                        assert(held(inf, x));
                        let g = choose|g: Id|
                            sd.contains(g) && with_background(s, x, removed(ps, p), g);
                        lemma_with_background_sober(s, x, removed(ps, p), g);
                    }
                },
                _ => {},
            }
        },
        FormulaView::Eqv(ps) => {
            lemma_members_valid(s, f, ps);
            match k {
                Instance::Pair(i) => {
                    let p = ps[i];
                    let q = ps[i + 1];
                    let w = choose|rest: Id, np: Id, nq: Id, both: Id, neither: Id|
                        s.is(rest, FormulaView::Eqv(removed(ps, p))) && negates(s, np, p)
                            && negates(s, nq, q) && and_of_three(s, both, rest, p, q)
                            && and_of_three(s, neither, rest, np, nq) && inf == pair_of(
                            both,
                            neither,
                        );
                    let rest = w.0;
                    let np = w.1;
                    let nq = w.2;
                    let both = w.3;
                    let neither = w.4;
                    assert(ps.contains(p) && ps.contains(q));
                    lemma_removed(ps, p);
                    lemma_sober(s, rest);
                    assert forall|x: Id| #[trigger] removed(ps, p).contains(x) implies sober(
                        s,
                        x,
                    ) && crate::simplification::tame::falsifiable(s, x) by {
                        assert(ps.contains(x));
                    }
                    lemma_sober(s, np);
                    lemma_sober(s, nq);
                    lemma_and_of_three_sober(s, both, rest, p, q);
                    lemma_and_of_three_sober(s, neither, rest, np, nq);
                    lemma_pair_members(both, neither);
                },
                _ => {},
            }
        },
        _ => {},
    }
}

/// What a weakening rule makes of a sober formula is sober.
pub proof fn lemma_weakened_sober(s: StoreView, f: Id, k: Weakening, w: Id)
    requires
        s.wf(),
        sober(s, f),
        weakened(s, f, k, w),
    ensures
        sober(s, w),
    decreases f,
{
    lemma_sober(s, f);
    assert(s.formula_ok(s.formulae[f as int], f as int));
    match s.formulae[f as int] {
        FormulaView::And(ps) => {
            lemma_members_valid(s, f, ps);
            match k {
                Weakening::Drop(p) => {
                    lemma_sober(s, w);
                    lemma_removed(ps, p);
                    assert forall|x: Id| #[trigger] removed(ps, p).contains(x) implies sober(
                        s,
                        x,
                    ) by {
                        assert(ps.contains(x));
                    }
                },
                Weakening::Inside(p, sub) => {
                    let q = choose|q: Id|
                        weakened(s, p, *sub, q) && #[trigger] with_background(
                            s,
                            w,
                            removed(ps, p),
                            q,
                        );
                    assert(sober(s, p));
                    lemma_weakened_sober(s, p, *sub, q);
                    lemma_removed(ps, p);
                    assert forall|x: Id| #[trigger] removed(ps, p).contains(x) implies sober(
                        s,
                        x,
                    ) by {
                        assert(ps.contains(x));
                    }
                    lemma_with_background_sober(s, w, removed(ps, p), q);
                },
            }
        },
        FormulaView::Eqv(ps) => {
            lemma_members_valid(s, f, ps);
            match k {
                Weakening::Drop(p) => {
                    lemma_sober(s, w);
                    lemma_removed(ps, p);
                    assert forall|x: Id| #[trigger] removed(ps, p).contains(x) implies sober(
                        s,
                        x,
                    ) && crate::simplification::tame::falsifiable(s, x) by {
                        assert(ps.contains(x));
                    }
                },
                _ => {},
            }
        },
        _ => {},
    }
}

/// Deduction is sound for sober formulae: under every assignment under
/// which the formula holds, a member of each of its deductions holds. So
/// if every member of one of its deductions is refuted, the formula is.
pub proof fn lemma_deduction_sound(
    before: StoreView,
    s: StoreView,
    f: Id,
    list: Seq<Seq<Id>>,
    i: int,
    atoms: spec_fn(Id) -> bool,
)
    requires
        s.wf(),
        sober(s, f),
        deductions_of(before, s, f, list),
        0 <= i < list.len(),
        s.holds(f, atoms),
    ensures
        some_holds(s, list[i], atoms),
{
    let symbols = choose|symbols: Seq<(Symbol, usize)>|
        crate::deduction::engine::is_signature(before, f, symbols) && (forall|i: int|
            0 <= i < list.len() ==> is_deduction(s, symbols, f, #[trigger] list[i])) && (forall|
            k: Instance,
        | #[trigger]
            crate::deduction::rules::applicable(before, symbols, f, k)
                ==> crate::deduction::engine::deduced_complete(s, symbols, f, k, list))
            && (forall|k: Weakening| #[trigger]
            crate::deduction::weakening::weakenable(before, f, k)
                ==> crate::deduction::engine::deduced_weakening(s, f, k, list));
    let inf = list[i];
    assert(is_deduction(s, symbols, f, inf));
    let raw = choose|raw: Seq<Id>| is_inference(s, symbols, f, raw) && simplified_image(s, raw, inf);
    lemma_sober_tame(s, f);
    if belongs(s, symbols, f, raw) {
        let k = choose|k: Instance| complete_rule(s, symbols, f, k, raw);
        lemma_complete_sound(s, symbols, f, k, raw, atoms);
        lemma_complete_sober(s, symbols, f, k, raw);
        let m = choose|m: Id| #[trigger] raw.contains(m) && s.holds(m, atoms);
        let z = choose|z: Id| inf.contains(z) && simplified_to(s, m, z);
        assert(sober(s, m));
        assert(s.holds(m, atoms) == s.holds(z, atoms));
        assert(inf.contains(z) && s.holds(z, atoms));
    } else {
        let w = choose|w: Id| is_weakening(s, f, w) && raw == seq![w];
        let k = choose|k: Weakening| weakened(s, f, k, w);
        lemma_weakened_sound(s, f, k, w, atoms);
        lemma_weakened_sober(s, f, k, w);
        assert(raw[0] == w);
        assert(raw.contains(w));
        let z = choose|z: Id| inf.contains(z) && simplified_to(s, w, z);
        assert(s.holds(w, atoms) == s.holds(z, atoms));
        assert(inf.contains(z) && s.holds(z, atoms));
    }
}

/// Whether `f` holds under no assignment.
pub open spec fn refutable(s: StoreView, f: Id) -> bool {
    forall|atoms: spec_fn(Id) -> bool| !#[trigger] s.holds(f, atoms)
}

/// A sober formula with a deduction of which every member is refutable is
/// refutable.
pub proof fn lemma_refutable(before: StoreView, s: StoreView, f: Id, list: Seq<Seq<Id>>, i: int)
    requires
        s.wf(),
        sober(s, f),
        deductions_of(before, s, f, list),
        0 <= i < list.len(),
        forall|m: Id| list[i].contains(m) ==> refutable(s, m),
    ensures
        refutable(s, f),
{
    assert forall|atoms: spec_fn(Id) -> bool| !#[trigger] s.holds(f, atoms) by {
        if s.holds(f, atoms) {
            lemma_deduction_sound(before, s, f, list, i, atoms);
            let m = choose|m: Id| #[trigger] list[i].contains(m) && s.holds(m, atoms);
            assert(refutable(s, m));
        }
    }
}

} // verus!
