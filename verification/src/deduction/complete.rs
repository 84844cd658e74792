//! The complete rules: the inferences that follow the shape of a goal.

use crate::collections::{ascending, Id, IdSet};
use crate::deduction::inferences::{all_formulae, continues, Inferences};
use crate::deduction::making::{
    belongs, build_and_not, build_three, build_unequal, build_with_background, covered, derived,
    lemma_all_formulae_extends, lemma_derived_extends, lemma_listed_extends, lemma_pair_members,
    listed, pair, record, single, without,
};
use crate::deduction::rules::{
    and_not,
    and_of_negations,
    applicable,
    closed_over,
    complete_rule,
    conjoined,
    differs_at,
    differs_before,
    has_differs_at,
    has_unequal_at,
    instantiated,
    lemma_built_extends,
    lemma_closed_over_extends,
    lemma_complete_rule_extends,
    lemma_conjoined_extends,
    lemma_unequal_neighbours_extends,
    lemma_unequivalent_neighbours_extends,
    negates,
    negation_rule,
    negations_of,
    only,
    removed,
    skolemized,
    split_pair,
    unequal_at,
    unequal_before,
    unequal_neighbours,
    unequivalent_neighbours,
    with_background,
    Instance,
};
use crate::formula::{Formula, FormulaView};
use crate::simplification::propositional::{has_negation, member_negated, negations, pair_of};
use crate::store::{Store, StoreView};
use crate::substitution::{held, lemma_substituted_extends, substituted};
use crate::symbol::Symbol;
use vstd::prelude::*;

verus! {

/// One more term extends the negated equations of neighbours.
pub proof fn lemma_unequal_step(
    s: StoreView,
    ts: Seq<Id>,
    m: int,
    inf: Seq<Id>,
    out: Seq<Id>,
    z: Id,
)
    requires
        unequal_neighbours(s, ts, m, inf),
        forall|x: Id| out.contains(x) <==> (inf.contains(x) || x == z),
        unequal_at(s, ts, m, z),
    ensures
        unequal_neighbours(s, ts, m + 1, out),
{
    assert forall|i: int| 0 <= i < m + 1 implies #[trigger] has_unequal_at(s, ts, i, out) by {
        if i < m {
            assert(has_unequal_at(s, ts, i, inf));
            let y = choose|y: Id| inf.contains(y) && unequal_at(s, ts, i, y);
            assert(out.contains(y) && unequal_at(s, ts, i, y));
        } else {
            assert(out.contains(z) && unequal_at(s, ts, i, z));
        }
    }
    assert forall|y: Id| #[trigger] held(out, y) implies unequal_before(s, ts, m + 1, y) by {
        if inf.contains(y) {
            assert(held(inf, y));
            assert(unequal_before(s, ts, m, y));
            let i = choose|i: int| 0 <= i < m && #[trigger] unequal_at(s, ts, i, y);
            assert(0 <= i < m + 1 && unequal_at(s, ts, i, y));
        } else {
            assert(0 <= m < m + 1 && unequal_at(s, ts, m, y));
        }
    }
}

/// One more member extends the conjunctions that tell neighbours apart.
pub proof fn lemma_differs_step(
    s: StoreView,
    ps: Seq<Id>,
    m: int,
    inf: Seq<Id>,
    out: Seq<Id>,
    a: Id,
    b: Id,
)
    requires
        unequivalent_neighbours(s, ps, m, inf),
        forall|x: Id| out.contains(x) <==> (inf.contains(x) || x == a || x == b),
        differs_at(s, ps, m, true, a),
        differs_at(s, ps, m, false, b),
    ensures
        unequivalent_neighbours(s, ps, m + 1, out),
{
    assert forall|i: int, forward: bool| 0 <= i < m + 1 implies #[trigger] has_differs_at(
        s,
        ps,
        i,
        forward,
        out,
    ) by {
        if i < m {
            assert(has_differs_at(s, ps, i, forward, inf));
            let y = choose|y: Id| inf.contains(y) && differs_at(s, ps, i, forward, y);
            assert(out.contains(y) && differs_at(s, ps, i, forward, y));
        } else if forward {
            assert(out.contains(a) && differs_at(s, ps, i, forward, a));
        } else {
            assert(out.contains(b) && differs_at(s, ps, i, forward, b));
        }
    }
    assert forall|y: Id| #[trigger] held(out, y) implies differs_before(s, ps, m + 1, y) by {
        if inf.contains(y) {
            assert(held(inf, y));
            assert(differs_before(s, ps, m, y));
            let (i, forward) = choose|i: int, forward: bool|
                0 <= i < m && #[trigger] differs_at(s, ps, i, forward, y);
            assert(0 <= i < m + 1 && differs_at(s, ps, i, forward, y));
        } else if y == a {
            assert(0 <= m < m + 1 && differs_at(s, ps, m, true, y));
        } else {
            assert(0 <= m < m + 1 && differs_at(s, ps, m, false, y));
        }
    }
}

/// For each term of `ts` but the last, the negation of its equation with
/// the next term.
fn unequal_set(store: &mut Store, ts: &IdSet) -> (out: IdSet)
    requires
        old(store).wf(),
        ts@.len() >= 1,
        forall|i: int| 0 <= i < ts@.len() ==> ts@[i] < old(store)@.terms.len(),
    ensures
        final(store).wf(),
        final(store)@.extends(old(store)@),
        out.wf(),
        forall|i: int| 0 <= i < out@.len() ==> out@[i] < final(store)@.formulae.len(),
        unequal_neighbours(final(store)@, ts@, ts@.len() - 1, out@),
{
    let n = ts.len();
    let mut out = IdSet::empty();
    let mut i: usize = 0;
    proof {
        assert forall|z: Id| #[trigger] held(out@, z) implies unequal_before(
            store@,
            ts@,
            0,
            z,
        ) by {}
    }
    while i + 1 < n
        invariant
            n == ts@.len(),
            n >= 1,
            i + 1 <= n,
            store.wf(),
            store@.extends(old(store)@),
            forall|j: int| 0 <= j < ts@.len() ==> ts@[j] < old(store)@.terms.len(),
            out.wf(),
            forall|z: Id| out@.contains(z) ==> z < store@.formulae.len(),
            unequal_neighbours(store@, ts@, i as int, out@),
        decreases n - i,
    {
        let ghost before = store@;
        let ghost sofar = out@;
        let z = build_unequal(store, ts.at(i), ts.at(i + 1));
        out = out.with(z);
        proof {
            lemma_unequal_neighbours_extends(before, store@, ts@, i as int, sofar);
            lemma_unequal_step(store@, ts@, i as int, sofar, out@, z);
        }
        i += 1;
    }
    proof {
        assert forall|j: int| 0 <= j < out@.len() implies out@[j] < store@.formulae.len() by {
            assert(out@.contains(out@[j]));
        }
    }
    out
}

/// For each member of `ps` but the last, the two conjunctions that say that
/// it and the next member differ.
fn differing_set(store: &mut Store, ps: &IdSet) -> (out: IdSet)
    requires
        old(store).wf(),
        forall|i: int| 0 <= i < ps@.len() ==> ps@[i] < old(store)@.formulae.len(),
    ensures
        final(store).wf(),
        final(store)@.extends(old(store)@),
        out.wf(),
        forall|i: int| 0 <= i < out@.len() ==> out@[i] < final(store)@.formulae.len(),
        unequivalent_neighbours(final(store)@, ps@, ps@.len() - 1, out@),
{
    let n = ps.len();
    let mut out = IdSet::empty();
    let mut i: usize = 0;
    proof {
        assert forall|z: Id| #[trigger] held(out@, z) implies differs_before(
            store@,
            ps@,
            0,
            z,
        ) by {}
        assert forall|z: Id| #[trigger] held(out@, z) implies differs_before(
            store@,
            ps@,
            -1,
            z,
        ) by {}
    }
    if n == 0 {
        return out;
    }
    while i + 1 < n
        invariant
            n == ps@.len(),
            n >= 1,
            i + 1 <= n,
            store.wf(),
            store@.extends(old(store)@),
            forall|j: int| 0 <= j < ps@.len() ==> ps@[j] < old(store)@.formulae.len(),
            out.wf(),
            forall|z: Id| out@.contains(z) ==> z < store@.formulae.len(),
            unequivalent_neighbours(store@, ps@, i as int, out@),
        decreases n - i,
    {
        let ghost before = store@;
        let ghost sofar = out@;
        let a = build_and_not(store, ps.at(i), ps.at(i + 1));
        let ghost middle = store@;
        let b = build_and_not(store, ps.at(i + 1), ps.at(i));
        let first = out.with(a);
        out = first.with(b);
        proof {
            lemma_unequivalent_neighbours_extends(before, store@, ps@, i as int, sofar);
            lemma_built_extends(middle, store@, a, ps@[i as int], ps@[i + 1], 0);
            lemma_differs_step(store@, ps@, i as int, sofar, out@, a, b);
        }
        i += 1;
    }
    proof {
        assert forall|j: int| 0 <= j < out@.len() implies out@[j] < store@.formulae.len() by {
            assert(out@.contains(out@[j]));
        }
    }
    out
}

/// The negations of the members of `ps`, as the rules speak of them.
fn negation_set(store: &mut Store, ps: &IdSet) -> (out: IdSet)
    requires
        old(store).wf(),
        forall|i: int| 0 <= i < ps@.len() ==> ps@[i] < old(store)@.formulae.len(),
    ensures
        final(store).wf(),
        final(store)@.extends(old(store)@),
        out.wf(),
        forall|i: int| 0 <= i < out@.len() ==> out@[i] < final(store)@.formulae.len(),
        negations_of(final(store)@, ps@, out@),
{
    let out = negations(store, ps);
    proof {
        let s = store@;
        assert forall|p: Id| #[trigger] ps@.contains(p) implies exists|z: Id|
            out@.contains(z) && negates(s, z, p) by {
            assert(has_negation(s, p));
            let z = choose|z: Id| s.is(z, FormulaView::Not(p));
            assert(member_negated(s, ps@, z));
            assert(out@.contains(z) && negates(s, z, p));
        }
        assert forall|z: Id| #[trigger] held(out@, z) implies member_negated(s, ps@, z) by {
            assert(out@.contains(z));
        }
    }
    out
}

/// The one use of the rules that a formula with a single inference has.
pub proof fn lemma_only_covered(
    before: StoreView,
    s: StoreView,
    symbols: Seq<(Symbol, usize)>,
    f: Id,
    list: Seq<Seq<Id>>,
)
    requires
        forall|k: Instance| #[trigger] applicable(before, symbols, f, k) ==> k is Only,
        !applicable(before, symbols, f, Instance::Only) || listed(
            s,
            symbols,
            f,
            Instance::Only,
            list,
        ),
    ensures
        covered(before, s, symbols, f, list),
{
    assert forall|k: Instance| #[trigger] applicable(before, symbols, f, k) implies listed(
        s,
        symbols,
        f,
        k,
        list,
    ) by {
        assert(k == Instance::Only);
    }
}

/// Adds to `deduced` the inference of the negation `f` of `g`.
fn negation_inferences(
    store: &mut Store,
    deduced: &mut Inferences,
    f: Id,
    g: Id,
    Ghost(symbols): Ghost<Seq<(Symbol, usize)>>,
)
    requires
        old(store).wf(),
        old(deduced).wf(),
        all_formulae(old(store)@, old(deduced)@),
        old(store)@.is(f, FormulaView::Not(g)),
    ensures
        final(store).wf(),
        final(store)@.extends(old(store)@),
        final(deduced).wf(),
        continues(old(deduced)@, final(deduced)@),
        all_formulae(final(store)@, final(deduced)@),
        derived(final(store)@, symbols, f, final(deduced)@, old(deduced)@.len() as int),
        covered(old(store)@, final(store)@, symbols, f, final(deduced)@),
{
    let ghost before = store@;
    let ghost start = deduced@;
    let ghost from = deduced@.len() as int;
    proof {
        assert(before.formula_ok(before.formulae[f as int], f as int));
        assert(before.formula_ok(before.formulae[g as int], g as int));
    }
    let inference: Option<IdSet> = match store.formula(g) {
        Formula::T => {
            let z = Formula::falsity(store);
            let inference = single(z);
            proof {
                assert(store@.is(z, FormulaView::F) && only(inference@, z));
                assert(store@.formulae[g as int] == before.formulae[g as int]);
                assert(negation_rule(store@, g, Instance::Only, inference@));
            }
            Some(inference)
        },
        Formula::F => None,
        Formula::Prd(_, _) => None,
        Formula::Eq(ts) => {
            if ts.len() > 2 {
                let ts = ts.clone();
                let inference = unequal_set(store, &ts);
                proof {
                    assert(store@.formulae[g as int] == before.formulae[g as int]);
                    assert(negation_rule(store@, g, Instance::Only, inference@));
                }
                Some(inference)
            } else {
                None
            }
        },
        Formula::Not(h) => {
            let inference = single(*h);
            proof {
                assert(only(inference@, *h));
                assert(negation_rule(store@, g, Instance::Only, inference@));
            }
            Some(inference)
        },
        Formula::Imp(p, q) => {
            let p = *p;
            let q = *q;
            let z = build_and_not(store, p, q);
            let inference = single(z);
            proof {
                assert(and_not(store@, z, p, q) && only(inference@, z));
                assert(store@.formulae[g as int] == before.formulae[g as int]);
                assert(negation_rule(store@, g, Instance::Only, inference@));
            }
            Some(inference)
        },
        Formula::Or(ps) => {
            let ps = ps.clone();
            let ns = negation_set(store, &ps);
            let ghost made = ns@;
            let ghost middle = store@;
            let z = store.intern(Formula::And(ns));
            let inference = single(z);
            proof {
                crate::deduction::rules::lemma_negations_of_extends(middle, store@, ps@, made);
                assert(ascending(made) && negations_of(store@, ps@, made) && store@.is(
                    z,
                    FormulaView::And(made),
                ));
                assert(and_of_negations(store@, z, ps@) && only(inference@, z));
                assert(store@.formulae[g as int] == before.formulae[g as int]);
                assert(negation_rule(store@, g, Instance::Only, inference@));
            }
            Some(inference)
        },
        Formula::And(ps) => {
            let ps = ps.clone();
            let inference = negation_set(store, &ps);
            proof {
                assert(store@.formulae[g as int] == before.formulae[g as int]);
                assert(negation_rule(store@, g, Instance::Only, inference@));
            }
            Some(inference)
        },
        Formula::Eqv(ps) => {
            let ps = ps.clone();
            let inference = differing_set(store, &ps);
            proof {
                assert(store@.formulae[g as int] == before.formulae[g as int]);
                assert(negation_rule(store@, g, Instance::Only, inference@));
            }
            Some(inference)
        },
        Formula::All(p) => {
            let p = *p;
            let n = Formula::negate(store, p);
            let z = store.intern(Formula::Ex(n));
            let inference = single(z);
            proof {
                assert(negates(store@, n, p) && store@.is(z, FormulaView::Ex(n)) && only(
                    inference@,
                    z,
                ));
                assert(store@.formulae[g as int] == before.formulae[g as int]);
                assert(negation_rule(store@, g, Instance::Only, inference@));
            }
            Some(inference)
        },
        Formula::Ex(p) => {
            let p = *p;
            let n = Formula::negate(store, p);
            let z = store.intern(Formula::All(n));
            let inference = single(z);
            proof {
                assert(negates(store@, n, p) && store@.is(z, FormulaView::All(n)) && only(
                    inference@,
                    z,
                ));
                assert(store@.formulae[g as int] == before.formulae[g as int]);
                assert(negation_rule(store@, g, Instance::Only, inference@));
            }
            Some(inference)
        },
    };
    proof {
        lemma_all_formulae_extends(before, store@, start);
        assert(store@.formulae[f as int] == before.formulae[f as int]);
        assert(store@.formulae[g as int] == before.formulae[g as int]);
    }
    match inference {
        Some(inference) => {
            proof {
                assert(negation_rule(store@, g, Instance::Only, inference@));
                assert(complete_rule(store@, symbols, f, Instance::Only, inference@));
            }
            record(
                deduced,
                inference,
                Ghost(store@),
                Ghost(symbols),
                Ghost(f),
                Ghost(Instance::Only),
                Ghost(from),
            );
        },
        None => {},
    }
    proof {
        assert(derived(store@, symbols, f, deduced@, from));
        lemma_only_covered(before, store@, symbols, f, deduced@);
    }
}

/// One more member of an inference extends the conjunctions with the
/// background.
pub proof fn lemma_conjoined_step(
    s: StoreView,
    bg: Seq<Id>,
    sd: Seq<Id>,
    inf: Seq<Id>,
    next: Seq<Id>,
    out: Seq<Id>,
    g: Id,
    z: Id,
)
    requires
        conjoined(s, bg, sd, inf),
        forall|x: Id| next.contains(x) <==> (sd.contains(x) || x == g),
        forall|x: Id| out.contains(x) <==> (inf.contains(x) || x == z),
        with_background(s, z, bg, g),
    ensures
        conjoined(s, bg, next, out),
{
    assert forall|x: Id| #[trigger] next.contains(x) implies exists|y: Id|
        out.contains(y) && with_background(s, y, bg, x) by {
        if sd.contains(x) {
            let y = choose|y: Id| inf.contains(y) && with_background(s, y, bg, x);
            assert(out.contains(y));
        } else {
            assert(out.contains(z));
        }
    }
    assert forall|y: Id| #[trigger] held(out, y) implies exists|x: Id|
        next.contains(x) && with_background(s, y, bg, x) by {
        if inf.contains(y) {
            assert(held(inf, y));
            let x = choose|x: Id| sd.contains(x) && with_background(s, y, bg, x);
            assert(next.contains(x));
        } else {
            assert(next.contains(g));
        }
    }
}

/// Each member of `sd` together with the members `bg`.
fn conjoin(store: &mut Store, bg: &IdSet, sd: &IdSet) -> (out: IdSet)
    requires
        old(store).wf(),
        bg.wf(),
        forall|i: int| 0 <= i < bg@.len() ==> bg@[i] < old(store)@.formulae.len(),
        forall|i: int| 0 <= i < sd@.len() ==> sd@[i] < old(store)@.formulae.len(),
    ensures
        final(store).wf(),
        final(store)@.extends(old(store)@),
        out.wf(),
        forall|i: int| 0 <= i < out@.len() ==> out@[i] < final(store)@.formulae.len(),
        conjoined(final(store)@, bg@, sd@, out@),
{
    let n = sd.len();
    let mut out = IdSet::empty();
    let mut i: usize = 0;
    proof {
        assert(sd@.subrange(0, 0) =~= Seq::<Id>::empty());
    }
    while i < n
        invariant
            n == sd@.len(),
            i <= n,
            store.wf(),
            store@.extends(old(store)@),
            bg.wf(),
            forall|j: int| 0 <= j < bg@.len() ==> bg@[j] < old(store)@.formulae.len(),
            forall|j: int| 0 <= j < sd@.len() ==> sd@[j] < old(store)@.formulae.len(),
            out.wf(),
            forall|z: Id| out@.contains(z) ==> z < store@.formulae.len(),
            conjoined(store@, bg@, sd@.subrange(0, i as int), out@),
        decreases n - i,
    {
        let ghost before = store@;
        let ghost sofar = out@;
        let g = sd.at(i);
        let z = build_with_background(store, bg, g);
        out = out.with(z);
        proof {
            crate::collections::lemma_prefix_contains(sd@, i as int);
            lemma_conjoined_extends(before, store@, bg@, sd@.subrange(0, i as int), sofar);
            lemma_conjoined_step(
                store@,
                bg@,
                sd@.subrange(0, i as int),
                sofar,
                sd@.subrange(0, i + 1),
                out@,
                g,
                z,
            );
        }
        i += 1;
    }
    proof {
        assert(sd@.subrange(0, n as int) =~= sd@);
        assert forall|j: int| 0 <= j < out@.len() implies out@[j] < store@.formulae.len() by {
            assert(out@.contains(out@[j]));
        }
    }
    out
}

/// `body` below `depth` universal quantifiers.
fn close(store: &mut Store, body: Id, depth: usize) -> (z: Id)
    requires
        old(store).wf(),
        body < old(store)@.formulae.len(),
    ensures
        final(store).wf(),
        final(store)@.extends(old(store)@),
        z < final(store)@.formulae.len(),
        closed_over(final(store)@, z, body, depth as nat),
{
    let mut z = body;
    let mut i: usize = 0;
    while i < depth
        invariant
            i <= depth,
            store.wf(),
            store@.extends(old(store)@),
            z < store@.formulae.len(),
            closed_over(store@, z, body, i as nat),
        decreases depth - i,
    {
        let ghost before = store@;
        let inner = z;
        z = store.intern(Formula::All(inner));
        proof {
            lemma_closed_over_extends(before, store@, inner, body, i as nat);
            assert(store@.is(z, FormulaView::All(inner)) && closed_over(
                store@,
                inner,
                body,
                i as nat,
            ));
        }
        i += 1;
    }
    z
}

/// Whether the inference of every pair before the one at `m` is listed.
pub open spec fn pairs_listed(
    s: StoreView,
    symbols: Seq<(Symbol, usize)>,
    f: Id,
    m: int,
    list: Seq<Seq<Id>>,
) -> bool {
    forall|i: int| 0 <= i < m ==> #[trigger] pair_listed(s, symbols, f, i, list)
}

/// Whether the inference of the pair at `i` is listed.
pub open spec fn pair_listed(
    s: StoreView,
    symbols: Seq<(Symbol, usize)>,
    f: Id,
    i: int,
    list: Seq<Seq<Id>>,
) -> bool {
    listed(s, symbols, f, Instance::Pair(i), list)
}

/// Whether the instantiation with the symbol at `j` is listed, if there is
/// one.
pub open spec fn symbol_listed(
    before: StoreView,
    s: StoreView,
    symbols: Seq<(Symbol, usize)>,
    f: Id,
    j: int,
    list: Seq<Seq<Id>>,
) -> bool {
    applicable(before, symbols, f, Instance::Symbol(j)) ==> listed(
        s,
        symbols,
        f,
        Instance::Symbol(j),
        list,
    )
}

/// Adds to `deduced` the inferences of the equivalence class `f` with the
/// members `ps`: one for each member and the next.
fn pair_inferences(
    store: &mut Store,
    deduced: &mut Inferences,
    f: Id,
    ps: &IdSet,
    Ghost(symbols): Ghost<Seq<(Symbol, usize)>>,
)
    requires
        old(store).wf(),
        old(deduced).wf(),
        all_formulae(old(store)@, old(deduced)@),
        old(store)@.is(f, FormulaView::Eqv(ps@)),
    ensures
        final(store).wf(),
        final(store)@.extends(old(store)@),
        final(deduced).wf(),
        continues(old(deduced)@, final(deduced)@),
        all_formulae(final(store)@, final(deduced)@),
        derived(final(store)@, symbols, f, final(deduced)@, old(deduced)@.len() as int),
        covered(old(store)@, final(store)@, symbols, f, final(deduced)@),
{
    let ghost before = store@;
    let ghost from = deduced@.len() as int;
    proof {
        assert(before.formula_ok(before.formulae[f as int], f as int));
    }
    let n = ps.len();
    let mut i: usize = 0;
    while i + 1 < n
        invariant
            n == ps@.len(),
            i + 1 <= n || n == 0,
            i <= n,
            store.wf(),
            store@.extends(before),
            before == old(store)@,
            before.is(f, FormulaView::Eqv(ps@)),
            ps.wf(),
            forall|j: int| 0 <= j < ps@.len() ==> ps@[j] < f,
            deduced.wf(),
            continues(old(deduced)@, deduced@),
            from == old(deduced)@.len(),
            all_formulae(store@, deduced@),
            derived(store@, symbols, f, deduced@, from),
            pairs_listed(store@, symbols, f, i as int, deduced@),
        decreases n - i,
    {
        let ghost earlier = store@;
        let ghost sofar = deduced@;
        let p = ps.at(i);
        let q = ps.at(i + 1);
        let others = without(ps, p);
        proof {
            crate::deduction::making::lemma_removed(ps@, p);
            assert forall|j: int| 0 <= j < others@.len() implies others@[j]
                < store@.formulae.len() by {
                assert(removed(ps@, p)[j] == others@[j]);
                assert(removed(ps@, p).contains(others@[j]));
                assert(ps@.contains(others@[j]));
                let k = choose|k: int| 0 <= k < ps@.len() && ps@[k] == others@[j];
            }
        }
        let rest = store.intern(Formula::Eqv(others));
        let np = Formula::negate(store, p);
        let nq = Formula::negate(store, q);
        let both = build_three(store, rest, p, q);
        let ghost middle = store@;
        let neither = build_three(store, rest, np, nq);
        let inference = pair(both, neither);
        proof {
            let s = store@;
            lemma_pair_members(both, neither);
            lemma_built_extends(middle, s, both, rest, p, q);
            assert(s.is(rest, FormulaView::Eqv(removed(ps@, p))) && negates(s, np, p) && negates(
                s,
                nq,
                q,
            ) && crate::deduction::rules::and_of_three(s, both, rest, p, q)
                && crate::deduction::rules::and_of_three(s, neither, rest, np, nq) && inference@
                == pair_of(both, neither));
            assert(split_pair(s, ps@, ps@[i as int], ps@[i + 1], inference@));
            assert(s.formulae[f as int] == before.formulae[f as int]);
            assert(complete_rule(s, symbols, f, Instance::Pair(i as int), inference@));
            lemma_all_formulae_extends(earlier, s, sofar);
            lemma_derived_extends(earlier, s, symbols, f, sofar, sofar, from);
        }
        record(
            deduced,
            inference,
            Ghost(store@),
            Ghost(symbols),
            Ghost(f),
            Ghost(Instance::Pair(i as int)),
            Ghost(from),
        );
        proof {
            let s = store@;
            assert forall|j: int| 0 <= j < i + 1 implies #[trigger] pair_listed(
                s,
                symbols,
                f,
                j,
                deduced@,
            ) by {
                if j < i {
                    assert(pair_listed(earlier, symbols, f, j, sofar));
                    lemma_listed_extends(earlier, s, symbols, f, Instance::Pair(j), sofar, deduced@);
                }
            }
        }
        i += 1;
    }
    proof {
        let s = store@;
        assert forall|k: Instance| #[trigger] applicable(before, symbols, f, k) implies listed(
            s,
            symbols,
            f,
            k,
            deduced@,
        ) by {
            match k {
                Instance::Pair(j) => {
                    assert(pair_listed(s, symbols, f, j, deduced@));
                },
                _ => {},
            }
        }
    }
}

/// Whether the instantiation with every symbol before the one at `m` that
/// has one is listed.
pub open spec fn symbols_listed(
    before: StoreView,
    s: StoreView,
    symbols: Seq<(Symbol, usize)>,
    f: Id,
    m: int,
    list: Seq<Seq<Id>>,
) -> bool {
    forall|j: int| 0 <= j < m ==> #[trigger] symbol_listed(before, s, symbols, f, j, list)
}

/// Adds to `deduced` the inference of a quantified formula `f` with the
/// body `p` that puts the constant introduced for `p` in the place of the
/// bound variable.
fn constant_inference(
    store: &mut Store,
    deduced: &mut Inferences,
    f: Id,
    p: Id,
    Ghost(symbols): Ghost<Seq<(Symbol, usize)>>,
    Ghost(from): Ghost<int>,
)
    requires
        old(store).wf(),
        old(deduced).wf(),
        all_formulae(old(store)@, old(deduced)@),
        old(store)@.is(f, FormulaView::All(p)) || old(store)@.is(f, FormulaView::Ex(p)),
        derived(old(store)@, symbols, f, old(deduced)@, from),
        0 <= from <= old(deduced)@.len(),
    ensures
        final(store).wf(),
        final(store)@.extends(old(store)@),
        final(deduced).wf(),
        continues(old(deduced)@, final(deduced)@),
        all_formulae(final(store)@, final(deduced)@),
        derived(final(store)@, symbols, f, final(deduced)@, from),
        listed(final(store)@, symbols, f, Instance::Constant, final(deduced)@),
{
    let ghost before = store@;
    let ghost sofar = deduced@;
    proof {
        assert(before.formula_ok(before.formulae[f as int], f as int));
    }
    let instance = Formula::subst(store, p, 0, Symbol::Introduced(p), 0);
    let inference = single(instance);
    proof {
        let s = store@;
        assert(substituted(s, p, 0, Symbol::Introduced(p), 0, instance) && only(
            inference@,
            instance,
        ));
        assert(skolemized(s, p, inference@));
        assert(s.formulae[f as int] == before.formulae[f as int]);
        assert(complete_rule(s, symbols, f, Instance::Constant, inference@));
        lemma_all_formulae_extends(before, s, sofar);
        lemma_derived_extends(before, s, symbols, f, sofar, sofar, from);
    }
    record(
        deduced,
        inference,
        Ghost(store@),
        Ghost(symbols),
        Ghost(f),
        Ghost(Instance::Constant),
        Ghost(from),
    );
}

/// Adds to `deduced` the inferences of the universal formula `f` with the
/// body `p`: one for each of `symbols`, and one for a new constant.
fn instance_inferences(
    store: &mut Store,
    deduced: &mut Inferences,
    symbols: &Vec<(Symbol, usize)>,
    f: Id,
    p: Id,
)
    requires
        old(store).wf(),
        old(deduced).wf(),
        all_formulae(old(store)@, old(deduced)@),
        old(store)@.is(f, FormulaView::All(p)),
    ensures
        final(store).wf(),
        final(store)@.extends(old(store)@),
        final(deduced).wf(),
        continues(old(deduced)@, final(deduced)@),
        all_formulae(final(store)@, final(deduced)@),
        derived(final(store)@, symbols@, f, final(deduced)@, old(deduced)@.len() as int),
        covered(old(store)@, final(store)@, symbols@, f, final(deduced)@),
{
    let ghost before = store@;
    let ghost from = deduced@.len() as int;
    proof {
        assert(before.formula_ok(before.formulae[f as int], f as int));
    }
    let n = symbols.len();
    let mut j: usize = 0;
    while j < n
        invariant
            n == symbols@.len(),
            j <= n,
            store.wf(),
            store@.extends(before),
            before == old(store)@,
            before.is(f, FormulaView::All(p)),
            p < f,
            deduced.wf(),
            continues(old(deduced)@, deduced@),
            from == old(deduced)@.len(),
            all_formulae(store@, deduced@),
            derived(store@, symbols@, f, deduced@, from),
            symbols_listed(before, store@, symbols@, f, j as int, deduced@),
        decreases n - j,
    {
        let ghost earlier = store@;
        let ghost sofar = deduced@;
        let (symbol, arity) = symbols[j];
        if arity < usize::MAX - p {
            let instance = Formula::subst(store, p, 0, symbol, arity);
            let ghost middle = store@;
            let closed = close(store, instance, arity);
            let inference = single(closed);
            proof {
                let s = store@;
                lemma_substituted_extends(middle, s, p, 0, symbol, arity, instance);
                assert(substituted(s, p, 0, symbol, arity, instance) && closed_over(
                    s,
                    closed,
                    instance,
                    arity as nat,
                ) && only(inference@, closed));
                assert(instantiated(s, f, p, symbol, arity, inference@));
                assert(s.formulae[f as int] == before.formulae[f as int]);
                assert(complete_rule(s, symbols@, f, Instance::Symbol(j as int), inference@));
                lemma_all_formulae_extends(earlier, s, sofar);
                lemma_derived_extends(earlier, s, symbols@, f, sofar, sofar, from);
            }
            record(
                deduced,
                inference,
                Ghost(store@),
                Ghost(symbols@),
                Ghost(f),
                Ghost(Instance::Symbol(j as int)),
                Ghost(from),
            );
        }
        proof {
            let s = store@;
            assert forall|i: int| 0 <= i < j + 1 implies #[trigger] symbol_listed(
                before,
                s,
                symbols@,
                f,
                i,
                deduced@,
            ) by {
                if i < j && applicable(before, symbols@, f, Instance::Symbol(i)) {
                    assert(symbol_listed(before, earlier, symbols@, f, i, sofar));
                    lemma_listed_extends(
                        earlier,
                        s,
                        symbols@,
                        f,
                        Instance::Symbol(i),
                        sofar,
                        deduced@,
                    );
                }
            }
        }
        j += 1;
    }
    let ghost earlier = store@;
    let ghost sofar = deduced@;
    constant_inference(store, deduced, f, p, Ghost(symbols@), Ghost(from));
    proof {
        let s = store@;
        assert forall|k: Instance| #[trigger] applicable(before, symbols@, f, k) implies listed(
            s,
            symbols@,
            f,
            k,
            deduced@,
        ) by {
            match k {
                Instance::Symbol(i) => {
                    assert(symbol_listed(before, earlier, symbols@, f, i, sofar));
                    lemma_listed_extends(
                        earlier,
                        s,
                        symbols@,
                        f,
                        Instance::Symbol(i),
                        sofar,
                        deduced@,
                    );
                },
                _ => {},
            }
        }
    }
}

/// A use of the rules that a formula has in a store, it has in every store
/// that extends it.
pub proof fn lemma_applicable_extends(
    old: StoreView,
    new: StoreView,
    symbols: Seq<(Symbol, usize)>,
    f: Id,
    k: Instance,
)
    requires
        new.extends(old),
        applicable(old, symbols, f, k),
    ensures
        applicable(new, symbols, f, k),
    decreases f,
{
    assert(new.formulae[f as int] == old.formulae[f as int]);
    match old.formulae[f as int] {
        FormulaView::Not(g) => {
            assert(new.formulae[g as int] == old.formulae[g as int]);
        },
        FormulaView::And(ps) => {
            match k {
                Instance::Conjunct(p, sub) => {
                    lemma_applicable_extends(old, new, symbols, p, *sub);
                },
                _ => {},
            }
        },
        _ => {},
    }
}

/// The inference of a conjunction that comes from an inference of one of
/// its members.
pub proof fn lemma_conjunct_rule(
    earlier: StoreView,
    s: StoreView,
    symbols: Seq<(Symbol, usize)>,
    f: Id,
    ps: Seq<Id>,
    p: Id,
    k: Instance,
    sd: Seq<Id>,
    combined: Seq<Id>,
)
    requires
        s.extends(earlier),
        s.is(f, FormulaView::And(ps)),
        ps.contains(p),
        p < f,
        ascending(combined),
        complete_rule(earlier, symbols, p, k, sd),
        conjoined(s, removed(ps, p), sd, combined),
    ensures
        complete_rule(s, symbols, f, Instance::Conjunct(p, Box::new(k)), combined),
{
    lemma_complete_rule_extends(earlier, s, symbols, p, k, sd);
    let boxed = Box::new(k);
    assert(*boxed == k);
    assert(complete_rule(s, symbols, p, *boxed, sd) && conjoined(s, removed(ps, p), sd, combined));
    assert(s.formulae[f as int] == FormulaView::And(ps));
    assert(Instance::Conjunct(p, boxed) matches Instance::Conjunct(q, sub) && q == p && sub
        == boxed);
}

/// Whether, for every use of the rules that gives `sd` for the member `p`,
/// the inference that it gives for the conjunction `f` is listed.
pub open spec fn combined_at(
    earlier: StoreView,
    s: StoreView,
    symbols: Seq<(Symbol, usize)>,
    f: Id,
    p: Id,
    sd: Seq<Id>,
    list: Seq<Seq<Id>>,
) -> bool {
    forall|k: Instance| #[trigger]
        complete_rule(earlier, symbols, p, k, sd) ==> listed(
            s,
            symbols,
            f,
            Instance::Conjunct(p, Box::new(k)),
            list,
        )
}

/// Whether this holds of each of the first `m` of the inferences `sub`.
pub open spec fn combined_upto(
    earlier: StoreView,
    s: StoreView,
    symbols: Seq<(Symbol, usize)>,
    f: Id,
    p: Id,
    sub: Seq<Seq<Id>>,
    m: int,
    list: Seq<Seq<Id>>,
) -> bool {
    forall|j: int|
        0 <= j < m ==> combined_at(earlier, s, symbols, f, p, #[trigger] sub[j], list)
}

/// Whether, for every use of the rules that the member `p` has, the
/// inference that it gives for the conjunction `f` is listed.
pub open spec fn covered_conjunct(
    before: StoreView,
    s: StoreView,
    symbols: Seq<(Symbol, usize)>,
    f: Id,
    p: Id,
    list: Seq<Seq<Id>>,
) -> bool {
    forall|k: Instance| #[trigger]
        applicable(before, symbols, p, k) ==> listed(
            s,
            symbols,
            f,
            Instance::Conjunct(p, Box::new(k)),
            list,
        )
}

/// Whether this holds of each of the first `m` members.
pub open spec fn conjuncts_covered(
    before: StoreView,
    s: StoreView,
    symbols: Seq<(Symbol, usize)>,
    f: Id,
    ps: Seq<Id>,
    m: int,
    list: Seq<Seq<Id>>,
) -> bool {
    forall|j: int| 0 <= j < m ==> covered_conjunct(before, s, symbols, f, #[trigger] ps[j], list)
}

/// What is covered stays covered when the store and the list grow.
pub proof fn lemma_conjuncts_covered_extends(
    before: StoreView,
    old: StoreView,
    new: StoreView,
    symbols: Seq<(Symbol, usize)>,
    f: Id,
    ps: Seq<Id>,
    m: int,
    list: Seq<Seq<Id>>,
    longer: Seq<Seq<Id>>,
)
    requires
        new.extends(old),
        continues(list, longer),
        conjuncts_covered(before, old, symbols, f, ps, m, list),
    ensures
        conjuncts_covered(before, new, symbols, f, ps, m, longer),
{
    assert forall|j: int| 0 <= j < m implies covered_conjunct(
        before,
        new,
        symbols,
        f,
        #[trigger] ps[j],
        longer,
    ) by {
        assert(covered_conjunct(before, old, symbols, f, ps[j], list));
        assert forall|k: Instance| #[trigger] applicable(before, symbols, ps[j], k) implies listed(
            new,
            symbols,
            f,
            Instance::Conjunct(ps[j], Box::new(k)),
            longer,
        ) by {
            lemma_listed_extends(
                old,
                new,
                symbols,
                f,
                Instance::Conjunct(ps[j], Box::new(k)),
                list,
                longer,
            );
        }
    }
}

/// What is combined stays combined when the store and the list grow.
pub proof fn lemma_combined_upto_extends(
    earlier: StoreView,
    old: StoreView,
    new: StoreView,
    symbols: Seq<(Symbol, usize)>,
    f: Id,
    p: Id,
    sub: Seq<Seq<Id>>,
    m: int,
    list: Seq<Seq<Id>>,
    longer: Seq<Seq<Id>>,
)
    requires
        new.extends(old),
        continues(list, longer),
        combined_upto(earlier, old, symbols, f, p, sub, m, list),
    ensures
        combined_upto(earlier, new, symbols, f, p, sub, m, longer),
{
    assert forall|j: int| 0 <= j < m implies combined_at(
        earlier,
        new,
        symbols,
        f,
        p,
        #[trigger] sub[j],
        longer,
    ) by {
        assert(combined_at(earlier, old, symbols, f, p, sub[j], list));
        assert forall|k: Instance| #[trigger]
            complete_rule(earlier, symbols, p, k, sub[j]) implies listed(
            new,
            symbols,
            f,
            Instance::Conjunct(p, Box::new(k)),
            longer,
        ) by {
            lemma_listed_extends(
                old,
                new,
                symbols,
                f,
                Instance::Conjunct(p, Box::new(k)),
                list,
                longer,
            );
        }
    }
}

/// Once every inference of a member has been combined, every use of the
/// rules that the member has is covered.
pub proof fn lemma_conjunct_covered(
    before: StoreView,
    called: StoreView,
    earlier: StoreView,
    s: StoreView,
    symbols: Seq<(Symbol, usize)>,
    f: Id,
    p: Id,
    sub: Seq<Seq<Id>>,
    list: Seq<Seq<Id>>,
)
    requires
        called.extends(before),
        covered(called, earlier, symbols, p, sub),
        combined_upto(earlier, s, symbols, f, p, sub, sub.len() as int, list),
    ensures
        covered_conjunct(before, s, symbols, f, p, list),
{
    assert forall|k: Instance| #[trigger] applicable(before, symbols, p, k) implies listed(
        s,
        symbols,
        f,
        Instance::Conjunct(p, Box::new(k)),
        list,
    ) by {
        lemma_applicable_extends(before, called, symbols, p, k);
        assert(listed(earlier, symbols, p, k, sub));
        let j = choose|j: int|
            0 <= j < sub.len() && complete_rule(earlier, symbols, p, k, #[trigger] sub[j]);
        assert(combined_at(earlier, s, symbols, f, p, sub[j], list));
    }
}

/// Adds to `deduced` the inferences of the conjunction `f` with the members
/// `ps`: for each inference of a member, the conjunctions of the other
/// members with a member of that inference.
fn conjunct_inferences(
    store: &mut Store,
    deduced: &mut Inferences,
    symbols: &Vec<(Symbol, usize)>,
    f: Id,
    ps: &IdSet,
)
    requires
        old(store).wf(),
        old(deduced).wf(),
        all_formulae(old(store)@, old(deduced)@),
        old(store)@.is(f, FormulaView::And(ps@)),
    ensures
        final(store).wf(),
        final(store)@.extends(old(store)@),
        final(deduced).wf(),
        continues(old(deduced)@, final(deduced)@),
        all_formulae(final(store)@, final(deduced)@),
        derived(final(store)@, symbols@, f, final(deduced)@, old(deduced)@.len() as int),
        covered(old(store)@, final(store)@, symbols@, f, final(deduced)@),
    decreases f, 0nat,
{
    let ghost before = store@;
    let ghost from = deduced@.len() as int;
    proof {
        assert(before.formula_ok(before.formulae[f as int], f as int));
    }
    let n = ps.len();
    let mut i: usize = 0;
    while i < n
        invariant
            n == ps@.len(),
            i <= n,
            store.wf(),
            store@.extends(before),
            before == old(store)@,
            before.is(f, FormulaView::And(ps@)),
            ps.wf(),
            forall|j: int| 0 <= j < ps@.len() ==> ps@[j] < f,
            deduced.wf(),
            continues(old(deduced)@, deduced@),
            from == old(deduced)@.len(),
            all_formulae(store@, deduced@),
            derived(store@, symbols@, f, deduced@, from),
            conjuncts_covered(before, store@, symbols@, f, ps@, i as int, deduced@),
        decreases n - i,
    {
        let p = ps.at(i);
        let ghost called = store@;
        let ghost outer_list = deduced@;
        let mut sub = Inferences::new();
        complete(store, &mut sub, symbols, p);
        let ghost earlier = store@;
        let others = without(ps, p);
        proof {
            crate::deduction::making::lemma_removed(ps@, p);
            assert(ps@.contains(ps@[i as int]));
            assert forall|j: int| 0 <= j < others@.len() implies others@[j]
                < store@.formulae.len() by {
                assert(removed(ps@, p)[j] == others@[j]);
                assert(removed(ps@, p).contains(others@[j]));
                assert(ps@.contains(others@[j]));
                let k = choose|k: int| 0 <= k < ps@.len() && ps@[k] == others@[j];
            }
            lemma_all_formulae_extends(called, earlier, outer_list);
            lemma_derived_extends(called, earlier, symbols@, f, outer_list, outer_list, from);
            lemma_conjuncts_covered_extends(
                before,
                called,
                earlier,
                symbols@,
                f,
                ps@,
                i as int,
                outer_list,
                outer_list,
            );
        }
        let m = sub.len();
        let mut j: usize = 0;
        while j < m
            invariant
                m == sub@.len(),
                j <= m,
                store.wf(),
                store@.extends(earlier),
                earlier.extends(before),
                before.is(f, FormulaView::And(ps@)),
                ps@.contains(p),
                p < f,
                others.wf(),
                others@ == removed(ps@, p),
                forall|x: int| 0 <= x < others@.len() ==> others@[x] < earlier.formulae.len(),
                sub.wf(),
                all_formulae(earlier, sub@),
                derived(earlier, symbols@, p, sub@, 0),
                deduced.wf(),
                continues(old(deduced)@, deduced@),
                from == old(deduced)@.len(),
                all_formulae(store@, deduced@),
                derived(store@, symbols@, f, deduced@, from),
                conjuncts_covered(before, store@, symbols@, f, ps@, i as int, deduced@),
                combined_upto(earlier, store@, symbols@, f, p, sub@, j as int, deduced@),
            decreases m - j,
        {
            let ghost inner = store@;
            let ghost sofar = deduced@;
            let sd = sub.get(j).clone();
            proof {
                assert forall|x: int| 0 <= x < sd@.len() implies sd@[x] < store@.formulae.len() by {
                    assert(sub@[j as int][x] < earlier.formulae.len());
                }
            }
            let combined = conjoin(store, &others, &sd);
            let ghost made = combined@;
            deduced.insert(combined);
            proof {
                let s = store@;
                let after = deduced@;
                assert(belongs(earlier, symbols@, p, sub@[j as int]));
                let k0 = choose|k: Instance| complete_rule(earlier, symbols@, p, k, sd@);
                lemma_conjunct_rule(earlier, s, symbols@, f, ps@, p, k0, sd@, made);
                let idx = choose|idx: int| 0 <= idx < after.len() && after[idx] == made;
                lemma_all_formulae_extends(inner, s, sofar);
                assert forall|a: int, b: int|
                    0 <= a < after.len() && 0 <= b < after[a].len() implies (#[trigger] after[a][b])
                    < s.formulae.len() by {
                    if a < sofar.len() {
                        assert(after[a] == sofar[a]);
                        assert(sofar[a][b] < s.formulae.len());
                    } else {
                        assert(after[a] == made);
                    }
                }
                lemma_derived_extends(inner, s, symbols@, f, sofar, sofar, from);
                assert forall|a: int| from <= a < after.len() implies belongs(
                    s,
                    symbols@,
                    f,
                    #[trigger] after[a],
                ) by {
                    if a < sofar.len() {
                        assert(after[a] == sofar[a]);
                        assert(belongs(s, symbols@, f, sofar[a]));
                    } else {
                        assert(after[a] == made);
                    }
                }
                lemma_conjuncts_covered_extends(
                    before,
                    inner,
                    s,
                    symbols@,
                    f,
                    ps@,
                    i as int,
                    sofar,
                    after,
                );
                lemma_combined_upto_extends(
                    earlier,
                    inner,
                    s,
                    symbols@,
                    f,
                    p,
                    sub@,
                    j as int,
                    sofar,
                    after,
                );
                assert forall|x: int| 0 <= x < j + 1 implies combined_at(
                    earlier,
                    s,
                    symbols@,
                    f,
                    p,
                    #[trigger] sub@[x],
                    after,
                ) by {
                    if x == j {
                        assert forall|k: Instance| #[trigger]
                            complete_rule(earlier, symbols@, p, k, sub@[x]) implies listed(
                            s,
                            symbols@,
                            f,
                            Instance::Conjunct(p, Box::new(k)),
                            after,
                        ) by {
                            lemma_conjunct_rule(earlier, s, symbols@, f, ps@, p, k, sd@, made);
                            assert(complete_rule(
                                s,
                                symbols@,
                                f,
                                Instance::Conjunct(p, Box::new(k)),
                                after[idx],
                            ));
                        }
                    }
                }
            }
            j += 1;
        }
        proof {
            let s = store@;
            lemma_conjunct_covered(before, called, earlier, s, symbols@, f, p, sub@, deduced@);
            assert forall|x: int| 0 <= x < i + 1 implies covered_conjunct(
                before,
                s,
                symbols@,
                f,
                #[trigger] ps@[x],
                deduced@,
            ) by {}
        }
        i += 1;
    }
    proof {
        let s = store@;
        assert forall|k: Instance| #[trigger] applicable(before, symbols@, f, k) implies listed(
            s,
            symbols@,
            f,
            k,
            deduced@,
        ) by {
            match k {
                Instance::Conjunct(p, sub) => {
                    let j = choose|j: int| 0 <= j < ps@.len() && ps@[j] == p;
                    assert(covered_conjunct(before, s, symbols@, f, ps@[j], deduced@));
                    assert(applicable(before, symbols@, p, *sub));
                    assert(Box::new(*sub) == sub);
                },
                _ => {},
            }
        }
    }
}

/// Adds to `deduced` the inferences that the complete rules give for `f`,
/// where `symbols` are the function symbols to instantiate universal
/// formulae with.
///
/// Every inference that is added belongs to `f` by one of the rules, and
/// every use of the rules that `f` has gives one of the inferences that
/// `deduced` holds in the end.
pub fn complete(
    store: &mut Store,
    deduced: &mut Inferences,
    symbols: &Vec<(Symbol, usize)>,
    f: Id,
)
    requires
        old(store).wf(),
        old(deduced).wf(),
        all_formulae(old(store)@, old(deduced)@),
        f < old(store)@.formulae.len(),
    ensures
        final(store).wf(),
        final(store)@.extends(old(store)@),
        final(deduced).wf(),
        continues(old(deduced)@, final(deduced)@),
        all_formulae(final(store)@, final(deduced)@),
        derived(final(store)@, symbols@, f, final(deduced)@, old(deduced)@.len() as int),
        covered(old(store)@, final(store)@, symbols@, f, final(deduced)@),
    decreases f, 1nat,
{
    let ghost before = store@;
    let ghost from = deduced@.len() as int;
    proof {
        assert(before.formula_ok(before.formulae[f as int], f as int));
    }
    match store.formula(f) {
        Formula::T | Formula::F | Formula::Prd(_, _) | Formula::Eq(_) => {},
        Formula::Not(g) => {
            let g = *g;
            negation_inferences(store, deduced, f, g, Ghost(symbols@));
        },
        Formula::Imp(p, q) => {
            let p = *p;
            let q = *q;
            let n = Formula::negate(store, p);
            let inference = pair(n, q);
            proof {
                lemma_pair_members(n, q);
                lemma_all_formulae_extends(before, store@, deduced@);
                assert(negates(store@, n, p) && inference@ == pair_of(n, q));
                assert(store@.formulae[f as int] == before.formulae[f as int]);
                assert(complete_rule(store@, symbols@, f, Instance::Only, inference@));
            }
            record(
                deduced,
                inference,
                Ghost(store@),
                Ghost(symbols@),
                Ghost(f),
                Ghost(Instance::Only),
                Ghost(from),
            );
            proof {
                lemma_only_covered(before, store@, symbols@, f, deduced@);
            }
        },
        Formula::Or(ps) => {
            let inference = ps.clone();
            proof {
                assert(complete_rule(store@, symbols@, f, Instance::Only, inference@));
            }
            record(
                deduced,
                inference,
                Ghost(store@),
                Ghost(symbols@),
                Ghost(f),
                Ghost(Instance::Only),
                Ghost(from),
            );
            proof {
                lemma_only_covered(before, store@, symbols@, f, deduced@);
            }
        },
        Formula::And(ps) => {
            let ps = ps.clone();
            conjunct_inferences(store, deduced, symbols, f, &ps);
        },
        Formula::Eqv(ps) => {
            let ps = ps.clone();
            pair_inferences(store, deduced, f, &ps, Ghost(symbols@));
        },
        Formula::All(p) => {
            let p = *p;
            instance_inferences(store, deduced, symbols, f, p);
        },
        Formula::Ex(p) => {
            let p = *p;
            constant_inference(store, deduced, f, p, Ghost(symbols@), Ghost(from));
            proof {
                assert forall|k: Instance| #[trigger]
                    applicable(before, symbols@, f, k) implies listed(
                    store@,
                    symbols@,
                    f,
                    k,
                    deduced@,
                ) by {
                    assert(k == Instance::Constant);
                }
            }
        },
    }
}

/// Adds to `deduced` the inferences that the complete rules give for `f`,
/// instantiating universal formulae with the function symbols of `f`.
pub fn complete_deductions(store: &mut Store, deduced: &mut Inferences, f: Id) -> (symbols: Ghost<
    Seq<(Symbol, usize)>,
>)
    requires
        old(store).wf(),
        old(deduced).wf(),
        all_formulae(old(store)@, old(deduced)@),
        f < old(store)@.formulae.len(),
    ensures
        final(store).wf(),
        final(store)@.extends(old(store)@),
        final(deduced).wf(),
        continues(old(deduced)@, final(deduced)@),
        all_formulae(final(store)@, final(deduced)@),
        symbols@.no_duplicates(),
        forall|symbol: Symbol, arity: usize|
            symbols@.contains((symbol, arity)) <==> crate::signature::mentions(
                old(store)@,
                f,
                symbol,
                arity,
                false,
            ),
        derived(final(store)@, symbols@, f, final(deduced)@, old(deduced)@.len() as int),
        covered(old(store)@, final(store)@, symbols@, f, final(deduced)@),
{
    let symbols = Formula::function_symbols(store, f);
    complete(store, deduced, &symbols, f);
    Ghost(symbols@)
}

} // verus!
