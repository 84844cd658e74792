//! Building the formulae that the rules speak of.

use crate::collections::{ascending, lemma_ascending_unique, lemma_push_contains, Id, IdSet};
use crate::deduction::inferences::{all_formulae, continues, Inferences};
use crate::deduction::rules::{
    and_not, and_of_three, applicable, complete_rule, lemma_complete_rule_extends, negates,
    removed, unequal, with_background, Instance,
};
use crate::formula::{Formula, FormulaView};
use crate::simplification::propositional::{lemma_pair, pair_of};
use crate::store::{Store, StoreView};
use crate::symbol::Symbol;
use vstd::prelude::*;

verus! {

/// `removed(ps, x)` is ascending, and its members are those of `ps` other
/// than `x`.
pub proof fn lemma_removed(ps: Seq<Id>, x: Id)
    requires
        ascending(ps),
    ensures
        ascending(removed(ps, x)),
        forall|y: Id| removed(ps, x).contains(y) <==> (ps.contains(y) && y != x),
    decreases ps.len(),
{
    let out = removed(ps, x);
    if ps.len() > 0 {
        let front = ps.drop_last();
        let last = ps.last();
        assert(ps =~= front.push(last));
        lemma_push_contains(front, last);
        assert(ascending(front)) by {
            assert forall|i: int, j: int| 0 <= i < j < front.len() implies front[i] < front[j] by {
                assert(ps[i] < ps[j]);
            }
        }
        lemma_removed(front, x);
        let rest = removed(front, x);
        if last != x {
            assert forall|y: Id| rest.contains(y) implies y < last by {
                assert(front.contains(y));
                let k = choose|k: int| 0 <= k < front.len() && front[k] == y;
                assert(ps[k] < ps[ps.len() - 1]);
            }
            crate::collections::lemma_push_ascending(rest, last);
            lemma_push_contains(rest, last);
            assert(out == rest.push(last));
            assert forall|y: Id| out.contains(y) <==> (ps.contains(y) && y != x) by {
                assert(out.contains(y) <==> (rest.contains(y) || y == last));
                assert(rest.contains(y) <==> (front.contains(y) && y != x));
                assert(ps.contains(y) <==> (front.contains(y) || y == last));
            }
        } else {
            assert(out == rest);
            assert forall|y: Id| out.contains(y) <==> (ps.contains(y) && y != x) by {
                assert(rest.contains(y) <==> (front.contains(y) && y != x));
                assert(ps.contains(y) <==> (front.contains(y) || y == last));
            }
        }
    } else {
        assert forall|y: Id| out.contains(y) <==> (ps.contains(y) && y != x) by {
            if ps.contains(y) {
                let k = choose|k: int| 0 <= k < ps.len() && ps[k] == y;
            }
        }
    }
}

/// The set of the two formulae.
pub fn pair(a: Id, b: Id) -> (set: IdSet)
    ensures
        set.wf(),
        set@ == pair_of(a, b),
{
    let single = IdSet::singleton(a);
    let set = single.with(b);
    proof {
        assert(single@[0] == a);
        assert forall|x: Id| single@.contains(x) <==> x == a by {}
        lemma_pair(set@, a, b);
    }
    set
}

/// The set with the one member `z`.
pub fn single(z: Id) -> (set: IdSet)
    ensures
        set.wf(),
        set@ == seq![z],
{
    IdSet::singleton(z)
}

/// The members of `ps` other than `x`.
pub fn without(ps: &IdSet, x: Id) -> (set: IdSet)
    requires
        ps.wf(),
    ensures
        set.wf(),
        set@ == removed(ps@, x),
{
    let set = ps.without(x);
    proof {
        lemma_removed(ps@, x);
        lemma_ascending_unique(set@, removed(ps@, x));
    }
    set
}

/// The conjunction of `a` and the negation of `b`.
pub fn build_and_not(store: &mut Store, a: Id, b: Id) -> (z: Id)
    requires
        old(store).wf(),
        a < old(store)@.formulae.len(),
        b < old(store)@.formulae.len(),
    ensures
        final(store).wf(),
        final(store)@.extends(old(store)@),
        z < final(store)@.formulae.len(),
        and_not(final(store)@, z, a, b),
{
    let n = Formula::negate(store, b);
    let set = pair(a, n);
    proof {
        lemma_pair_members(a, n);
    }
    let z = store.intern(Formula::And(set));
    proof {
        assert(negates(store@, n, b) && store@.is(z, FormulaView::And(pair_of(a, n))));
    }
    z
}

/// The members of the class of two formulae.
pub proof fn lemma_pair_members(a: Id, b: Id)
    ensures
        forall|i: int| 0 <= i < pair_of(a, b).len() ==> pair_of(a, b)[i] == a || pair_of(a, b)[i]
            == b,
        forall|x: Id| pair_of(a, b).contains(x) <==> (x == a || x == b),
        ascending(pair_of(a, b)),
{
    let p = pair_of(a, b);
    assert forall|x: Id| p.contains(x) <==> (x == a || x == b) by {
        if x == a || x == b {
            if a < b {
                assert(p[0] == a && p[1] == b);
            } else if a == b {
                assert(p[0] == a);
            } else {
                assert(p[0] == b && p[1] == a);
            }
        }
    }
}

/// The negation of the equation of the terms `a` and `b`.
pub fn build_unequal(store: &mut Store, a: Id, b: Id) -> (z: Id)
    requires
        old(store).wf(),
        a < old(store)@.terms.len(),
        b < old(store)@.terms.len(),
    ensures
        final(store).wf(),
        final(store)@.extends(old(store)@),
        z < final(store)@.formulae.len(),
        unequal(final(store)@, z, a, b),
{
    let set = pair(a, b);
    proof {
        lemma_pair_members(a, b);
    }
    let e = store.intern(Formula::Eq(set));
    let z = Formula::negate(store, e);
    proof {
        assert(store@.is(e, FormulaView::Eq(pair_of(a, b))) && negates(store@, z, e));
    }
    z
}

/// The conjunction of the three formulae.
pub fn build_three(store: &mut Store, a: Id, b: Id, c: Id) -> (z: Id)
    requires
        old(store).wf(),
        a < old(store)@.formulae.len(),
        b < old(store)@.formulae.len(),
        c < old(store)@.formulae.len(),
    ensures
        final(store).wf(),
        final(store)@.extends(old(store)@),
        z < final(store)@.formulae.len(),
        and_of_three(final(store)@, z, a, b, c),
{
    let one = IdSet::singleton(a);
    let two = one.with(b);
    let set = two.with(c);
    proof {
        assert(one@[0] == a);
        assert forall|x: Id| one@.contains(x) <==> x == a by {}
        assert forall|x: Id| set@.contains(x) <==> (x == a || x == b || x == c) by {}
        assert forall|i: int| 0 <= i < set@.len() implies set@[i] < store@.formulae.len() by {
            assert(set@.contains(set@[i]));
        }
    }
    let ghost qs = set@;
    let z = store.intern(Formula::And(set));
    proof {
        assert(ascending(qs) && store@.is(z, FormulaView::And(qs)) && forall|x: Id|
            qs.contains(x) <==> (x == a || x == b || x == c));
    }
    z
}

/// The conjunction of the members `bg` and of `g`.
pub fn build_with_background(store: &mut Store, bg: &IdSet, g: Id) -> (z: Id)
    requires
        old(store).wf(),
        bg.wf(),
        forall|i: int| 0 <= i < bg@.len() ==> bg@[i] < old(store)@.formulae.len(),
        g < old(store)@.formulae.len(),
    ensures
        final(store).wf(),
        final(store)@.extends(old(store)@),
        z < final(store)@.formulae.len(),
        with_background(final(store)@, z, bg@, g),
{
    let set = bg.with(g);
    proof {
        assert forall|i: int| 0 <= i < set@.len() implies set@[i] < store@.formulae.len() by {
            assert(set@.contains(set@[i]));
            if set@[i] != g {
                let k = choose|k: int| 0 <= k < bg@.len() && bg@[k] == set@[i];
            }
        }
    }
    let ghost qs = set@;
    let z = store.intern(Formula::And(set));
    proof {
        assert(ascending(qs) && store@.is(z, FormulaView::And(qs)) && forall|x: Id|
            qs.contains(x) <==> (bg@.contains(x) || x == g));
    }
    z
}

/// Whether each of the inferences from position `from` on belongs to `f` by
/// one of the complete rules.
pub open spec fn derived(
    s: StoreView,
    symbols: Seq<(Symbol, usize)>,
    f: Id,
    list: Seq<Seq<Id>>,
    from: int,
) -> bool {
    forall|i: int| from <= i < list.len() ==> belongs(s, symbols, f, #[trigger] list[i])
}

/// Whether `inf` belongs to `f` by one of the complete rules.
pub open spec fn belongs(s: StoreView, symbols: Seq<(Symbol, usize)>, f: Id, inf: Seq<Id>) -> bool {
    exists|k: Instance| complete_rule(s, symbols, f, k, inf)
}

/// Whether the inference of the use `k` of the complete rules for `f` is
/// among `list`.
pub open spec fn listed(
    s: StoreView,
    symbols: Seq<(Symbol, usize)>,
    f: Id,
    k: Instance,
    list: Seq<Seq<Id>>,
) -> bool {
    exists|i: int| 0 <= i < list.len() && complete_rule(s, symbols, f, k, #[trigger] list[i])
}

/// Whether the inference of every use of the complete rules that `f` has in
/// the store `before` is among `list`.
pub open spec fn covered(
    before: StoreView,
    s: StoreView,
    symbols: Seq<(Symbol, usize)>,
    f: Id,
    list: Seq<Seq<Id>>,
) -> bool {
    forall|k: Instance| #[trigger]
        applicable(before, symbols, f, k) ==> listed(s, symbols, f, k, list)
}

/// What is derived and listed in a store stays so when the store and the
/// list grow.
pub proof fn lemma_derived_extends(
    old: StoreView,
    new: StoreView,
    symbols: Seq<(Symbol, usize)>,
    f: Id,
    before: Seq<Seq<Id>>,
    after: Seq<Seq<Id>>,
    from: int,
)
    requires
        new.extends(old),
        continues(before, after),
        derived(old, symbols, f, before, from),
        derived(new, symbols, f, after, before.len() as int),
        0 <= from <= before.len(),
    ensures
        derived(new, symbols, f, after, from),
{
    assert forall|i: int| from <= i < after.len() implies belongs(
        new,
        symbols,
        f,
        #[trigger] after[i],
    ) by {
        if i < before.len() {
            assert(after[i] == before[i]);
            assert(belongs(old, symbols, f, before[i]));
            let k = choose|k: Instance| complete_rule(old, symbols, f, k, before[i]);
            lemma_complete_rule_extends(old, new, symbols, f, k, before[i]);
        }
    }
}

/// What is listed in a store stays listed when the store and the list grow.
pub proof fn lemma_listed_extends(
    old: StoreView,
    new: StoreView,
    symbols: Seq<(Symbol, usize)>,
    f: Id,
    k: Instance,
    before: Seq<Seq<Id>>,
    after: Seq<Seq<Id>>,
)
    requires
        new.extends(old),
        continues(before, after),
        listed(old, symbols, f, k, before),
    ensures
        listed(new, symbols, f, k, after),
{
    let i = choose|i: int|
        0 <= i < before.len() && complete_rule(old, symbols, f, k, #[trigger] before[i]);
    lemma_complete_rule_extends(old, new, symbols, f, k, before[i]);
    assert(after[i] == before[i]);
}

/// Adds to `deduced` the inference of the use `k` of the complete rules for
/// `f`.
pub(crate) fn record(
    deduced: &mut Inferences,
    inference: IdSet,
    Ghost(s): Ghost<StoreView>,
    Ghost(symbols): Ghost<Seq<(Symbol, usize)>>,
    Ghost(f): Ghost<Id>,
    Ghost(k): Ghost<Instance>,
    Ghost(from): Ghost<int>,
)
    requires
        old(deduced).wf(),
        inference.wf(),
        all_formulae(s, old(deduced)@),
        forall|j: int| 0 <= j < inference@.len() ==> inference@[j] < s.formulae.len(),
        complete_rule(s, symbols, f, k, inference@),
        derived(s, symbols, f, old(deduced)@, from),
        0 <= from <= old(deduced)@.len(),
    ensures
        final(deduced).wf(),
        continues(old(deduced)@, final(deduced)@),
        all_formulae(s, final(deduced)@),
        derived(s, symbols, f, final(deduced)@, from),
        listed(s, symbols, f, k, final(deduced)@),
{
    let ghost before = deduced@;
    let ghost added = inference@;
    deduced.insert(inference);
    proof {
        let after = deduced@;
        let i = choose|i: int| 0 <= i < after.len() && after[i] == added;
        assert(complete_rule(s, symbols, f, k, after[i]));
        assert forall|i: int| from <= i < after.len() implies belongs(
            s,
            symbols,
            f,
            #[trigger] after[i],
        ) by {
            if i < before.len() {
                assert(after[i] == before[i]);
                assert(belongs(s, symbols, f, before[i]));
            } else {
                assert(after == before.push(added));
                assert(complete_rule(s, symbols, f, k, after[i]));
            }
        }
        assert forall|i: int, j: int| 0 <= i < after.len() && 0 <= j < after[i].len() implies (
        #[trigger] after[i][j]) < s.formulae.len() by {
            if i < before.len() {
                assert(after[i] == before[i]);
                assert(before[i][j] < s.formulae.len());
            }
        }
    }
}

/// What a store holds of the inferences stays so when the store grows.
pub proof fn lemma_all_formulae_extends(old: StoreView, new: StoreView, list: Seq<Seq<Id>>)
    requires
        new.extends(old),
        all_formulae(old, list),
    ensures
        all_formulae(new, list),
{
    assert forall|i: int, j: int| 0 <= i < list.len() && 0 <= j < list[i].len() implies (
    #[trigger] list[i][j]) < new.formulae.len() by {
        assert(list[i][j] < old.formulae.len());
    }
}

} // verus!
