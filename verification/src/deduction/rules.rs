//! The rules by which a goal is replaced by simpler goals.
//!
//! An inference is a set of formulae. It belongs to a formula if refuting
//! every member of the inference refutes the formula: if the formula holds,
//! one of the members holds too.

use crate::collections::{ascending, Id};
use crate::formula::FormulaView;
use crate::simplification::propositional::{member_negated, pair_of};
use crate::store::StoreView;
use crate::substitution::{held, lemma_substituted_extends, substituted};
use crate::symbol::Symbol;
use vstd::prelude::*;

verus! {

/// Which use of a rule an inference comes from.
pub enum Instance {
    /// The one inference of a formula that has one.
    Only,
    /// The inference for the member at this position and the member after it.
    Pair(int),
    /// The instantiation with the symbol at this position of the signature.
    Symbol(int),
    /// The instantiation with the constant introduced for the bound variable.
    Constant,
    /// The inference of this member of a conjunction, by this use of a rule.
    Conjunct(Id, Box<Instance>),
}

/// The members of `ps` other than `x`.
pub open spec fn removed(ps: Seq<Id>, x: Id) -> Seq<Id>
    decreases ps.len(),
{
    if ps.len() == 0 {
        ps
    } else if ps.last() == x {
        removed(ps.drop_last(), x)
    } else {
        removed(ps.drop_last(), x).push(ps.last())
    }
}

/// Whether `inf` has the one member `z`.
pub open spec fn only(inf: Seq<Id>, z: Id) -> bool {
    inf == seq![z]
}

/// Whether `z` is the negation of `x`.
pub open spec fn negates(s: StoreView, z: Id, x: Id) -> bool {
    s.is(z, FormulaView::Not(x))
}

/// Whether `z` is the conjunction of `a` and the negation of `b`.
pub open spec fn and_not(s: StoreView, z: Id, a: Id, b: Id) -> bool {
    exists|n: Id| negates(s, n, b) && s.is(z, FormulaView::And(pair_of(a, n)))
}

/// Whether `z` is the negation of the equation of `a` and `b`.
pub open spec fn unequal(s: StoreView, z: Id, a: Id, b: Id) -> bool {
    exists|e: Id| s.is(e, FormulaView::Eq(pair_of(a, b))) && negates(s, z, e)
}

/// Whether `z` is the negation of the equation of the term at `i` and the
/// next term.
pub open spec fn unequal_at(s: StoreView, ts: Seq<Id>, i: int, z: Id) -> bool {
    0 <= i < ts.len() - 1 && unequal(s, z, ts[i], ts[i + 1])
}

/// Whether `inf` holds, for each of the first `m` terms of `ts`, the
/// negation of its equation with the next term.
pub open spec fn unequal_neighbours(s: StoreView, ts: Seq<Id>, m: int, inf: Seq<Id>) -> bool {
    &&& forall|i: int| 0 <= i < m ==> #[trigger] has_unequal_at(s, ts, i, inf)
    &&& forall|z: Id| #[trigger] held(inf, z) ==> unequal_before(s, ts, m, z)
}

/// Whether `inf` holds the negation of the equation of the term at `i` and
/// the next term.
pub open spec fn has_unequal_at(s: StoreView, ts: Seq<Id>, i: int, inf: Seq<Id>) -> bool {
    exists|z: Id| inf.contains(z) && unequal_at(s, ts, i, z)
}

/// Whether `z` is the negation of the equation of one of the first `m`
/// terms and the next term.
pub open spec fn unequal_before(s: StoreView, ts: Seq<Id>, m: int, z: Id) -> bool {
    exists|i: int| 0 <= i < m && #[trigger] unequal_at(s, ts, i, z)
}

/// Whether `inf` holds what says that the member at `i` differs from the
/// next, in the direction `forward`.
pub open spec fn has_differs_at(
    s: StoreView,
    ps: Seq<Id>,
    i: int,
    forward: bool,
    inf: Seq<Id>,
) -> bool {
    exists|z: Id| inf.contains(z) && differs_at(s, ps, i, forward, z)
}

/// Whether `z` says that one of the first `m` members differs from the
/// next.
pub open spec fn differs_before(s: StoreView, ps: Seq<Id>, m: int, z: Id) -> bool {
    exists|i: int, forward: bool| 0 <= i < m && #[trigger] differs_at(s, ps, i, forward, z)
}

/// Whether `z` is the conjunction of the member at `i` and the negation of
/// the next member, if `forward`, or of the next member and the negation of
/// the member at `i`.
pub open spec fn differs_at(s: StoreView, ps: Seq<Id>, i: int, forward: bool, z: Id) -> bool {
    0 <= i < ps.len() - 1 && if forward {
        and_not(s, z, ps[i], ps[i + 1])
    } else {
        and_not(s, z, ps[i + 1], ps[i])
    }
}

/// Whether `inf` holds, for each of the first `m` members of `ps`, the two
/// conjunctions that say that it and the next member differ.
pub open spec fn unequivalent_neighbours(s: StoreView, ps: Seq<Id>, m: int, inf: Seq<Id>) -> bool {
    &&& forall|i: int, forward: bool|
        0 <= i < m ==> #[trigger] has_differs_at(s, ps, i, forward, inf)
    &&& forall|z: Id| #[trigger] held(inf, z) ==> differs_before(s, ps, m, z)
}

/// Whether `inf` holds the negations of the members of `ps`.
pub open spec fn negations_of(s: StoreView, ps: Seq<Id>, inf: Seq<Id>) -> bool {
    &&& forall|p: Id| #[trigger]
        ps.contains(p) ==> exists|z: Id| inf.contains(z) && negates(s, z, p)
    &&& forall|z: Id| #[trigger] held(inf, z) ==> member_negated(s, ps, z)
}

/// Whether `z` is the conjunction of the negations of `ps`.
pub open spec fn and_of_negations(s: StoreView, z: Id, ps: Seq<Id>) -> bool {
    exists|ns: Seq<Id>| ascending(ns) && negations_of(s, ps, ns) && s.is(z, FormulaView::And(ns))
}

/// Whether `z` is the conjunction of the members `bg` and of `g`.
pub open spec fn with_background(s: StoreView, z: Id, bg: Seq<Id>, g: Id) -> bool {
    exists|qs: Seq<Id>|
        ascending(qs) && s.is(z, FormulaView::And(qs)) && forall|x: Id|
            qs.contains(x) <==> (bg.contains(x) || x == g)
}

/// Whether `inf` holds each member of `sd` together with the members `bg`.
pub open spec fn conjoined(s: StoreView, bg: Seq<Id>, sd: Seq<Id>, inf: Seq<Id>) -> bool {
    &&& forall|g: Id| #[trigger]
        sd.contains(g) ==> exists|z: Id| inf.contains(z) && with_background(s, z, bg, g)
    &&& forall|z: Id| #[trigger]
        held(inf, z) ==> exists|g: Id| sd.contains(g) && with_background(s, z, bg, g)
}

/// Whether `z` is the conjunction of the three formulae.
pub open spec fn and_of_three(s: StoreView, z: Id, a: Id, b: Id, c: Id) -> bool {
    exists|qs: Seq<Id>|
        ascending(qs) && s.is(z, FormulaView::And(qs)) && forall|x: Id|
            qs.contains(x) <==> (x == a || x == b || x == c)
}

/// Whether `inf` is the inference for the member `p` of the equivalence
/// class `ps` and the member `q` after it: either both hold with the rest
/// of the class, or neither does.
pub open spec fn split_pair(s: StoreView, ps: Seq<Id>, p: Id, q: Id, inf: Seq<Id>) -> bool {
    exists|rest: Id, np: Id, nq: Id, both: Id, neither: Id|
        s.is(rest, FormulaView::Eqv(removed(ps, p))) && negates(s, np, p) && negates(s, nq, q)
            && and_of_three(s, both, rest, p, q) && and_of_three(s, neither, rest, np, nq)
            && inf == pair_of(both, neither)
}

/// Whether `z` is `body` below `depth` universal quantifiers.
pub open spec fn closed_over(s: StoreView, z: Id, body: Id, depth: nat) -> bool
    decreases depth,
{
    if depth == 0 {
        z == body
    } else {
        exists|inner: Id| s.is(z, FormulaView::All(inner)) && closed_over(
            s,
            inner,
            body,
            (depth - 1) as nat,
        )
    }
}

/// Whether `inf` is the instantiation of the universal formula with the
/// body `p` by `symbol`: the one member is the instance, closed over the
/// variables that the instance brings in.
pub open spec fn instantiated(
    s: StoreView,
    f: Id,
    p: Id,
    symbol: Symbol,
    arity: usize,
    inf: Seq<Id>,
) -> bool {
    exists|instance: Id, closed: Id|
        substituted(s, p, 0, symbol, arity, instance) && closed_over(
            s,
            closed,
            instance,
            arity as nat,
        ) && only(inf, closed)
}

/// Whether `inf` is the body `p` of a quantified formula with the constant
/// introduced for `p` in the place of the bound variable.
pub open spec fn skolemized(s: StoreView, p: Id, inf: Seq<Id>) -> bool {
    exists|instance: Id| substituted(s, p, 0, Symbol::Introduced(p), 0, instance) && only(
        inf,
        instance,
    )
}

/// Whether `inf` is the inference that the use `k` of the complete rules
/// gives for the negation of `g`.
pub open spec fn negation_rule(s: StoreView, g: Id, k: Instance, inf: Seq<Id>) -> bool {
    k is Only && g < s.formulae.len() && match s.formulae[g as int] {
        FormulaView::T => exists|z: Id| s.is(z, FormulaView::F) && only(inf, z),
        FormulaView::F => false,
        FormulaView::Prd(_, _) => false,
        FormulaView::Eq(ts) => ts.len() > 2 && ascending(inf) && unequal_neighbours(
            s,
            ts,
            ts.len() - 1,
            inf,
        ),
        FormulaView::Not(h) => only(inf, h),
        FormulaView::Imp(p, q) => exists|z: Id| and_not(s, z, p, q) && only(inf, z),
        FormulaView::Or(ps) => exists|z: Id| and_of_negations(s, z, ps) && only(inf, z),
        FormulaView::And(ps) => ascending(inf) && negations_of(s, ps, inf),
        FormulaView::Eqv(ps) => ascending(inf) && unequivalent_neighbours(
            s,
            ps,
            ps.len() - 1,
            inf,
        ),
        FormulaView::All(p) => exists|n: Id, z: Id|
            negates(s, n, p) && s.is(z, FormulaView::Ex(n)) && only(inf, z),
        FormulaView::Ex(p) => exists|n: Id, z: Id|
            negates(s, n, p) && s.is(z, FormulaView::All(n)) && only(inf, z),
    }
}

/// Whether `inf` is the inference that the use `k` of the complete rules
/// gives for `f`, where `symbols` are the function symbols to instantiate
/// universal formulae with.
///
/// A negation is pushed inwards. An implication gives the negation of its
/// left side and its right side; a disjunction gives its members. A
/// conjunction gives, for each inference of one of its members, the
/// conjunctions of the other members with a member of that inference. An
/// equivalence class gives, for each member and the next, the case that both
/// hold and the case that neither does. A universal formula gives an
/// instance for each symbol, universally closed, and its body with a new
/// constant; an existential formula gives its body with a new constant.
pub open spec fn complete_rule(
    s: StoreView,
    symbols: Seq<(Symbol, usize)>,
    f: Id,
    k: Instance,
    inf: Seq<Id>,
) -> bool
    decreases f,
{
    f < s.formulae.len() && match s.formulae[f as int] {
        FormulaView::T => false,
        FormulaView::F => false,
        FormulaView::Prd(_, _) => false,
        FormulaView::Eq(_) => false,
        FormulaView::Not(g) => negation_rule(s, g, k, inf),
        FormulaView::Imp(p, q) => k is Only && exists|n: Id|
            negates(s, n, p) && inf == pair_of(n, q),
        FormulaView::Or(ps) => k is Only && inf == ps,
        FormulaView::And(ps) => match k {
            Instance::Conjunct(p, sub) => ps.contains(p) && p < f && ascending(inf) && exists|
                sd: Seq<Id>,
            |
                complete_rule(s, symbols, p, *sub, sd) && #[trigger] conjoined(
                    s,
                    removed(ps, p),
                    sd,
                    inf,
                ),
            _ => false,
        },
        FormulaView::Eqv(ps) => match k {
            Instance::Pair(i) => 0 <= i < ps.len() - 1 && split_pair(s, ps, ps[i], ps[i + 1], inf),
            _ => false,
        },
        FormulaView::All(p) => match k {
            Instance::Symbol(j) => 0 <= j < symbols.len() && instantiated(
                s,
                f,
                p,
                symbols[j].0,
                symbols[j].1,
                inf,
            ),
            Instance::Constant => skolemized(s, p, inf),
            _ => false,
        },
        FormulaView::Ex(p) => k is Constant && skolemized(s, p, inf),
    }
}

/// Whether the complete rules have the use `k` for `f`.
pub open spec fn applicable(
    s: StoreView,
    symbols: Seq<(Symbol, usize)>,
    f: Id,
    k: Instance,
) -> bool
    decreases f,
{
    f < s.formulae.len() && match s.formulae[f as int] {
        FormulaView::T => false,
        FormulaView::F => false,
        FormulaView::Prd(_, _) => false,
        FormulaView::Eq(_) => false,
        FormulaView::Not(g) => k is Only && g < f && match s.formulae[g as int] {
            FormulaView::F => false,
            FormulaView::Prd(_, _) => false,
            FormulaView::Eq(ts) => ts.len() > 2,
            _ => true,
        },
        FormulaView::Imp(_, _) => k is Only,
        FormulaView::Or(_) => k is Only,
        FormulaView::And(ps) => match k {
            Instance::Conjunct(p, sub) => ps.contains(p) && p < f && applicable(
                s,
                symbols,
                p,
                *sub,
            ),
            _ => false,
        },
        FormulaView::Eqv(ps) => match k {
            Instance::Pair(i) => 0 <= i < ps.len() - 1,
            _ => false,
        },
        FormulaView::All(p) => match k {
            Instance::Symbol(j) => 0 <= j < symbols.len() && symbols[j].1 + p < usize::MAX,
            Instance::Constant => true,
            _ => false,
        },
        FormulaView::Ex(_) => k is Constant,
    }
}

/// A closure that holds in a store holds in every store that extends it.
pub proof fn lemma_closed_over_extends(
    old: StoreView,
    new: StoreView,
    z: Id,
    body: Id,
    depth: nat,
)
    requires
        new.extends(old),
        closed_over(old, z, body, depth),
    ensures
        closed_over(new, z, body, depth),
    decreases depth,
{
    if depth > 0 {
        let inner = choose|inner: Id|
            old.is(z, FormulaView::All(inner)) && closed_over(
                old,
                inner,
                body,
                (depth - 1) as nat,
            );
        lemma_closed_over_extends(old, new, inner, body, (depth - 1) as nat);
        assert(new.is(z, FormulaView::All(inner)));
    }
}

/// What `and_not` says of a store, it says of every store that extends it;
/// so do the other descriptions of single formulae.
pub proof fn lemma_built_extends(old: StoreView, new: StoreView, z: Id, a: Id, b: Id, c: Id)
    requires
        new.extends(old),
    ensures
        and_not(old, z, a, b) ==> and_not(new, z, a, b),
        unequal(old, z, a, b) ==> unequal(new, z, a, b),
        and_of_three(old, z, a, b, c) ==> and_of_three(new, z, a, b, c),
{
    if and_not(old, z, a, b) {
        let n = choose|n: Id| negates(old, n, b) && old.is(z, FormulaView::And(pair_of(a, n)));
        assert(negates(new, n, b) && new.is(z, FormulaView::And(pair_of(a, n))));
    }
    if unequal(old, z, a, b) {
        let e = choose|e: Id| old.is(e, FormulaView::Eq(pair_of(a, b))) && negates(old, z, e);
        assert(new.is(e, FormulaView::Eq(pair_of(a, b))) && negates(new, z, e));
    }
    if and_of_three(old, z, a, b, c) {
        let qs = choose|qs: Seq<Id>|
            ascending(qs) && old.is(z, FormulaView::And(qs)) && forall|x: Id|
                qs.contains(x) <==> (x == a || x == b || x == c);
        assert(ascending(qs) && new.is(z, FormulaView::And(qs)) && forall|x: Id|
            qs.contains(x) <==> (x == a || x == b || x == c));
    }
}

/// A conjunction with a background in a store is one in every store that
/// extends it.
pub proof fn lemma_with_background_extends(
    old: StoreView,
    new: StoreView,
    z: Id,
    bg: Seq<Id>,
    g: Id,
)
    requires
        new.extends(old),
        with_background(old, z, bg, g),
    ensures
        with_background(new, z, bg, g),
{
    let qs = choose|qs: Seq<Id>|
        ascending(qs) && old.is(z, FormulaView::And(qs)) && forall|x: Id|
            qs.contains(x) <==> (bg.contains(x) || x == g);
    assert(ascending(qs) && new.is(z, FormulaView::And(qs)) && forall|x: Id|
        qs.contains(x) <==> (bg.contains(x) || x == g));
}

/// The negations of the members in a store are their negations in every
/// store that extends it.
pub proof fn lemma_negations_of_extends(old: StoreView, new: StoreView, ps: Seq<Id>, inf: Seq<Id>)
    requires
        new.extends(old),
        negations_of(old, ps, inf),
    ensures
        negations_of(new, ps, inf),
{
    assert forall|p: Id| #[trigger] ps.contains(p) implies exists|z: Id|
        inf.contains(z) && negates(new, z, p) by {
        let z = choose|z: Id| inf.contains(z) && negates(old, z, p);
        assert(inf.contains(z) && negates(new, z, p));
    }
    assert forall|z: Id| #[trigger] held(inf, z) implies member_negated(new, ps, z) by {
        assert(member_negated(old, ps, z));
        let x = choose|x: Id| ps.contains(x) && old.is(z, FormulaView::Not(x));
        assert(ps.contains(x) && new.is(z, FormulaView::Not(x)));
    }
}

/// The negated equations of neighbours in a store are such in every store
/// that extends it.
pub proof fn lemma_unequal_neighbours_extends(
    old: StoreView,
    new: StoreView,
    ts: Seq<Id>,
    m: int,
    inf: Seq<Id>,
)
    requires
        new.extends(old),
        unequal_neighbours(old, ts, m, inf),
    ensures
        unequal_neighbours(new, ts, m, inf),
{
    assert forall|i: int| 0 <= i < m implies #[trigger] has_unequal_at(new, ts, i, inf) by {
        assert(has_unequal_at(old, ts, i, inf));
        let z = choose|z: Id| inf.contains(z) && unequal_at(old, ts, i, z);
        lemma_built_extends(old, new, z, ts[i], ts[i + 1], 0);
        assert(inf.contains(z) && unequal_at(new, ts, i, z));
    }
    assert forall|z: Id| #[trigger] held(inf, z) implies unequal_before(new, ts, m, z) by {
        assert(unequal_before(old, ts, m, z));
        let i = choose|i: int| 0 <= i < m && #[trigger] unequal_at(old, ts, i, z);
        lemma_built_extends(old, new, z, ts[i], ts[i + 1], 0);
        assert(0 <= i < m && unequal_at(new, ts, i, z));
    }
}

/// The conjunctions that tell neighbours apart in a store do so in every
/// store that extends it.
pub proof fn lemma_unequivalent_neighbours_extends(
    old: StoreView,
    new: StoreView,
    ps: Seq<Id>,
    m: int,
    inf: Seq<Id>,
)
    requires
        new.extends(old),
        unequivalent_neighbours(old, ps, m, inf),
    ensures
        unequivalent_neighbours(new, ps, m, inf),
{
    assert forall|i: int, forward: bool| 0 <= i < m implies #[trigger] has_differs_at(
        new,
        ps,
        i,
        forward,
        inf,
    ) by {
        assert(has_differs_at(old, ps, i, forward, inf));
        let z = choose|z: Id| inf.contains(z) && differs_at(old, ps, i, forward, z);
        lemma_built_extends(old, new, z, ps[i], ps[i + 1], 0);
        lemma_built_extends(old, new, z, ps[i + 1], ps[i], 0);
        assert(inf.contains(z) && differs_at(new, ps, i, forward, z));
    }
    assert forall|z: Id| #[trigger] held(inf, z) implies differs_before(new, ps, m, z) by {
        assert(differs_before(old, ps, m, z));
        let (i, forward) = choose|i: int, forward: bool|
            0 <= i < m && #[trigger] differs_at(old, ps, i, forward, z);
        lemma_built_extends(old, new, z, ps[i], ps[i + 1], 0);
        lemma_built_extends(old, new, z, ps[i + 1], ps[i], 0);
        assert(0 <= i < m && differs_at(new, ps, i, forward, z));
    }
}

/// An inference for a negation in a store is one in every store that
/// extends it.
pub proof fn lemma_negation_rule_extends(
    old: StoreView,
    new: StoreView,
    g: Id,
    k: Instance,
    inf: Seq<Id>,
)
    requires
        new.extends(old),
        negation_rule(old, g, k, inf),
    ensures
        negation_rule(new, g, k, inf),
{
    assert(new.formulae[g as int] == old.formulae[g as int]);
    match old.formulae[g as int] {
        FormulaView::T => {
            let z = choose|z: Id| old.is(z, FormulaView::F) && only(inf, z);
            assert(new.is(z, FormulaView::F) && only(inf, z));
        },
        FormulaView::Eq(ts) => {
            lemma_unequal_neighbours_extends(old, new, ts, ts.len() - 1, inf);
        },
        FormulaView::Imp(p, q) => {
            let z = choose|z: Id| and_not(old, z, p, q) && only(inf, z);
            lemma_built_extends(old, new, z, p, q, 0);
            assert(and_not(new, z, p, q) && only(inf, z));
        },
        FormulaView::Or(ps) => {
            let z = choose|z: Id| and_of_negations(old, z, ps) && only(inf, z);
            let ns = choose|ns: Seq<Id>|
                ascending(ns) && negations_of(old, ps, ns) && old.is(z, FormulaView::And(ns));
            lemma_negations_of_extends(old, new, ps, ns);
            assert(ascending(ns) && negations_of(new, ps, ns) && new.is(z, FormulaView::And(ns)));
            assert(and_of_negations(new, z, ps) && only(inf, z));
        },
        FormulaView::And(ps) => {
            lemma_negations_of_extends(old, new, ps, inf);
        },
        FormulaView::Eqv(ps) => {
            lemma_unequivalent_neighbours_extends(old, new, ps, ps.len() - 1, inf);
        },
        FormulaView::All(p) => {
            let (n, z) = choose|n: Id, z: Id|
                negates(old, n, p) && old.is(z, FormulaView::Ex(n)) && only(inf, z);
            assert(negates(new, n, p) && new.is(z, FormulaView::Ex(n)) && only(inf, z));
        },
        FormulaView::Ex(p) => {
            let (n, z) = choose|n: Id, z: Id|
                negates(old, n, p) && old.is(z, FormulaView::All(n)) && only(inf, z);
            assert(negates(new, n, p) && new.is(z, FormulaView::All(n)) && only(inf, z));
        },
        _ => {},
    }
}

/// Conjunctions with a background in a store are such in every store that
/// extends it.
pub proof fn lemma_conjoined_extends(
    old: StoreView,
    new: StoreView,
    bg: Seq<Id>,
    sd: Seq<Id>,
    inf: Seq<Id>,
)
    requires
        new.extends(old),
        conjoined(old, bg, sd, inf),
    ensures
        conjoined(new, bg, sd, inf),
{
    assert forall|g: Id| #[trigger] sd.contains(g) implies exists|z: Id|
        inf.contains(z) && with_background(new, z, bg, g) by {
        let z = choose|z: Id| inf.contains(z) && with_background(old, z, bg, g);
        lemma_with_background_extends(old, new, z, bg, g);
    }
    assert forall|z: Id| #[trigger] held(inf, z) implies exists|g: Id|
        sd.contains(g) && with_background(new, z, bg, g) by {
        let g = choose|g: Id| sd.contains(g) && with_background(old, z, bg, g);
        lemma_with_background_extends(old, new, z, bg, g);
    }
}

/// An inference for a formula in a store is one in every store that extends
/// it.
pub proof fn lemma_complete_rule_extends(
    old: StoreView,
    new: StoreView,
    symbols: Seq<(Symbol, usize)>,
    f: Id,
    k: Instance,
    inf: Seq<Id>,
)
    requires
        new.extends(old),
        complete_rule(old, symbols, f, k, inf),
    ensures
        complete_rule(new, symbols, f, k, inf),
    decreases f,
{
    assert(new.formulae[f as int] == old.formulae[f as int]);
    match old.formulae[f as int] {
        FormulaView::Not(g) => {
            lemma_negation_rule_extends(old, new, g, k, inf);
        },
        FormulaView::Imp(p, q) => {
            let n = choose|n: Id| negates(old, n, p) && inf == pair_of(n, q);
            assert(negates(new, n, p) && inf == pair_of(n, q));
        },
        FormulaView::And(ps) => {
            match k {
                Instance::Conjunct(p, sub) => {
                    let sd = choose|sd: Seq<Id>|
                        complete_rule(old, symbols, p, *sub, sd) && #[trigger] conjoined(
                            old,
                            removed(ps, p),
                            sd,
                            inf,
                        );
                    lemma_complete_rule_extends(old, new, symbols, p, *sub, sd);
                    lemma_conjoined_extends(old, new, removed(ps, p), sd, inf);
                    assert(complete_rule(new, symbols, p, *sub, sd) && conjoined(
                        new,
                        removed(ps, p),
                        sd,
                        inf,
                    ));
                },
                _ => {},
            }
        },
        FormulaView::Eqv(ps) => {
            match k {
                Instance::Pair(i) => {
                    let p = ps[i];
                    let q = ps[i + 1];
                    let (rest, np, nq, both, neither) = choose|
                        rest: Id,
                        np: Id,
                        nq: Id,
                        both: Id,
                        neither: Id,
                    |
                        old.is(rest, FormulaView::Eqv(removed(ps, p))) && negates(old, np, p)
                            && negates(old, nq, q) && and_of_three(old, both, rest, p, q)
                            && and_of_three(old, neither, rest, np, nq) && inf == pair_of(
                            both,
                            neither,
                        );
                    lemma_built_extends(old, new, both, rest, p, q);
                    lemma_built_extends(old, new, neither, rest, np, nq);
                    assert(new.is(rest, FormulaView::Eqv(removed(ps, p))) && negates(new, np, p)
                        && negates(new, nq, q) && and_of_three(new, both, rest, p, q)
                        && and_of_three(new, neither, rest, np, nq) && inf == pair_of(
                        both,
                        neither,
                    ));
                },
                _ => {},
            }
        },
        FormulaView::All(p) => {
            match k {
                Instance::Symbol(j) => {
                    lemma_instantiated_extends(old, new, f, p, symbols[j].0, symbols[j].1, inf);
                },
                Instance::Constant => {
                    lemma_skolemized_extends(old, new, p, inf);
                },
                _ => {},
            }
        },
        FormulaView::Ex(p) => {
            lemma_skolemized_extends(old, new, p, inf);
        },
        _ => {},
    }
}

/// An instantiation in a store is one in every store that extends it.
pub proof fn lemma_instantiated_extends(
    old: StoreView,
    new: StoreView,
    f: Id,
    p: Id,
    symbol: Symbol,
    arity: usize,
    inf: Seq<Id>,
)
    requires
        new.extends(old),
        instantiated(old, f, p, symbol, arity, inf),
    ensures
        instantiated(new, f, p, symbol, arity, inf),
{
    let (instance, closed) = choose|instance: Id, closed: Id|
        substituted(old, p, 0, symbol, arity, instance) && closed_over(
            old,
            closed,
            instance,
            arity as nat,
        ) && only(inf, closed);
    lemma_substituted_extends(old, new, p, 0, symbol, arity, instance);
    lemma_closed_over_extends(old, new, closed, instance, arity as nat);
    assert(substituted(new, p, 0, symbol, arity, instance) && closed_over(
        new,
        closed,
        instance,
        arity as nat,
    ) && only(inf, closed));
}

/// A body with its new constant in a store is one in every store that
/// extends it.
pub proof fn lemma_skolemized_extends(old: StoreView, new: StoreView, p: Id, inf: Seq<Id>)
    requires
        new.extends(old),
        skolemized(old, p, inf),
    ensures
        skolemized(new, p, inf),
{
    let instance = choose|instance: Id|
        substituted(old, p, 0, Symbol::Introduced(p), 0, instance) && only(inf, instance);
    lemma_substituted_extends(old, new, p, 0, Symbol::Introduced(p), 0, instance);
    assert(substituted(new, p, 0, Symbol::Introduced(p), 0, instance) && only(inf, instance));
}

} // verus!
