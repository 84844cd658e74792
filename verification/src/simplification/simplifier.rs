//! The simplifier: rewriting until nothing changes.

use crate::collections::{ascending, lemma_ascending_unique, Id, IdSet};
use crate::formula::{Formula, FormulaView};
use crate::lowering::{
    drop_vacuous, lemma_stable_extends, lemma_vacuous_extends, lemma_var_free_extends,
    settled_body, vacuous,
};
use crate::measure::{
    lemma_ascending_distinct, lemma_sum_dominated, lemma_sum_remove, lemma_weight_extends,
    lemma_weight_unfold, sum,
};
use crate::simplification::classes::combine_classes;
use crate::simplification::equational::{combine_equations, trivial_equality};
use crate::simplification::lighter::{
    lemma_contradicted_lighter, lemma_flattened_lighter, lemma_implications_lighter,
    lemma_members_valid, lemma_propagated_lighter, lemma_trivialised_lighter,
    lemma_unnegated_lighter,
};
use crate::simplification::merging::lemma_combined_lighter;
use crate::simplification::normal::{
    equationally_normal, is_normal, lemma_combined_unique, lemma_contradicted_unique,
    lemma_flattened_unique, lemma_implications_unique, lemma_normal_extends, lemma_normal_parts,
    lemma_parts_normal_extends, lemma_propagated_unique, lemma_root_normal_extends,
    lemma_trivialised_unique, parts_normal, propositionally_normal,
};
use crate::simplification::propositional::{
    boolean_propagation, combine_implications, contradiction, double_negation, lift_associative,
    trivial_nary,
};
use crate::simplification::tame::{
    agrees, keeps, lemma_agrees_extends, lemma_agrees_trans, lemma_body_sound, lemma_kept_extends,
    lemma_members_sound, lemma_sides_sound, lemma_stage_combined, lemma_stage_contradicted,
    lemma_stage_equational, lemma_stage_implications, lemma_stage_propagated, lemma_stage_rest,
    lemma_tame_extends, tame,
};
use crate::simplification::rounds::{
    at, at_both, equationally_rewritten, equations_hold, lemma_members_extend,
    lemma_part_extends, members_simplified, part_simplified,
    parts_simplified, passes_hold, propositionally_rewritten, rewritten_once, simplified, Passes,
    Round,
};
use crate::store::{lemma_interning, Store, StoreView};
use vstd::prelude::*;

verus! {

/// Whether `to` gives every member of `ps` a formula of the store that is
/// the member itself or lighter.
pub open spec fn lightens(s: StoreView, ps: Seq<Id>, to: Map<Id, Id>) -> bool {
    forall|p: Id| #[trigger]
        ps.contains(p) ==> to.contains_key(p) && to[p] < s.formulae.len() && (to[p] == p
            || s.weight(to[p]) < s.weight(p))
}

/// Whether `qs` holds what `to` makes of the members of `ps`.
pub open spec fn image_of(qs: Seq<Id>, ps: Seq<Id>, to: Map<Id, Id>) -> bool {
    forall|z: Id| qs.contains(z) <==> exists|p: Id| ps.contains(p) && to[p] == z
}

/// Some member of `ps` that `to` takes to `z`.
pub open spec fn origin(ps: Seq<Id>, to: Map<Id, Id>, z: Id) -> Id {
    choose|p: Id| ps.contains(p) && to[p] == z
}

/// The image of the members of a connective under a map that lightens them
/// weighs no more than the members, and less unless the map changes nothing.
pub proof fn lemma_image_lighter(
    s: StoreView,
    ps: Seq<Id>,
    qs: Seq<Id>,
    to: Map<Id, Id>,
    extra: nat,
)
    requires
        ascending(ps),
        ascending(qs),
        forall|p: Id| ps.contains(p) ==> p < s.formulae.len(),
        lightens(s, ps, to),
        image_of(qs, ps, to),
    ensures
        sum(qs, s.member_weight(extra)) <= sum(ps, s.member_weight(extra)),
        qs == ps || sum(qs, s.member_weight(extra)) < sum(ps, s.member_weight(extra)),
{
    lemma_ascending_distinct(ps);
    lemma_ascending_distinct(qs);
    let val = s.member_weight(extra);
    let h = |z: Id| origin(ps, to, z);
    assert forall|z: Id| qs.contains(z) implies ps.contains(h(z)) && val(z) <= val(h(z)) by {
        let p = choose|p: Id| ps.contains(p) && to[p] == z;
        assert(ps.contains(h(z)) && to[h(z)] == z);
    }
    assert forall|a: Id, b: Id| qs.contains(a) && qs.contains(b) && h(a) == h(b) implies a
        == b by {
        let p = choose|p: Id| ps.contains(p) && to[p] == a;
        let q = choose|q: Id| ps.contains(q) && to[q] == b;
        assert(to[h(a)] == a);
        assert(to[h(b)] == b);
    }
    lemma_sum_dominated(qs, val, ps, val, h);
    if qs != ps {
        if exists|p: Id| ps.contains(p) && to[p] != p {
            let p = choose|p: Id| ps.contains(p) && to[p] != p;
            let z = to[p];
            assert(qs.contains(z));
            assert(to[h(z)] == z);
            if h(z) == p {
                assert(qs.contains(z) && val(z) < val(h(z)));
            } else {
                let w = h(z);
                // `p` is nobody's origin unless it is lighter than itself
                if exists|y: Id| qs.contains(y) && h(y) == p {
                    let y = choose|y: Id| qs.contains(y) && h(y) == p;
                    assert(to[h(y)] == y);
                    assert(y == z);
                } else {
                    lemma_weight_positive_member(s, p, extra);
                    assert(ps.contains(p) && val(p) > 0 && (forall|q: Id|
                        qs.contains(q) ==> h(q) != p));
                }
            }
        } else {
            assert forall|x: Id| qs.contains(x) <==> ps.contains(x) by {
                if qs.contains(x) {
                    let p = choose|p: Id| ps.contains(p) && to[p] == x;
                }
                if ps.contains(x) {
                    assert(ps.contains(x) && to[x] == x);
                }
            }
            lemma_ascending_unique(qs, ps);
        }
    }
}

/// A member of a connective has positive weight.
pub proof fn lemma_weight_positive_member(s: StoreView, p: Id, extra: nat)
    requires
        p < s.formulae.len(),
    ensures
        s.member_weight(extra)(p) > 0,
{
}

/// The simplified forms of the members of `ps`, which are members of the
/// connective `f`.
fn simplify_members(store: &mut Store, ps: &IdSet, Ghost(f): Ghost<Id>) -> (out: (
    IdSet,
    Ghost<Map<Id, Id>>,
))
    requires
        old(store).wf(),
        ps.wf(),
        f < old(store)@.formulae.len(),
        forall|p: Id| ps@.contains(p) ==> p < f && old(store)@.weight(p) < old(store)@.weight(f),
    ensures
        final(store).wf(),
        final(store)@.extends(old(store)@),
        out.0.wf(),
        forall|i: int| 0 <= i < out.0@.len() ==> out.0@[i] < final(store)@.formulae.len(),
        lightens(final(store)@, ps@, out.1@),
        image_of(out.0@, ps@, out.1@),
        forall|p: Id| ps@.contains(p) ==> is_normal(final(store)@, #[trigger] out.1@[p]),
        forall|p: Id| ps@.contains(p) && is_normal(old(store)@, p) ==> #[trigger] out.1@[p] == p,
        forall|p: Id|
            ps@.contains(p) ==> keeps(old(store)@, final(store)@, p, #[trigger] out.1@[p]),
        members_simplified(old(store)@.weight(f), old(store)@, final(store)@, ps@, out.0@, out.1@),
    decreases old(store)@.weight(f), 0nat,
{
    let n = ps.len();
    let mut qs = IdSet::empty();
    let ghost mut to: Map<Id, Id> = Map::empty();
    let mut i: usize = 0;
    while i < n
        invariant
            n == ps@.len(),
            i <= n,
            store.wf(),
            old(store)@.wf(),
            ps.wf(),
            store@.extends(old(store)@),
            f < old(store)@.formulae.len(),
            forall|p: Id|
                ps@.contains(p) ==> p < f && old(store)@.weight(p) < old(store)@.weight(f),
            qs.wf(),
            forall|z: Id| qs@.contains(z) ==> z < store@.formulae.len(),
            lightens(store@, ps@.subrange(0, i as int), to),
            image_of(qs@, ps@.subrange(0, i as int), to),
            forall|x: Id|
                ps@.subrange(0, i as int).contains(x) ==> is_normal(store@, #[trigger] to[x]),
            forall|x: Id|
                ps@.subrange(0, i as int).contains(x) && is_normal(old(store)@, x)
                    ==> #[trigger] to[x] == x,
            forall|x: Id|
                ps@.subrange(0, i as int).contains(x) ==> keeps(
                    old(store)@,
                    store@,
                    x,
                    #[trigger] to[x],
                ),
            forall|x: Id| #[trigger]
                ps@.subrange(0, i as int).contains(x) ==> part_simplified(
                    old(store)@.weight(f),
                    old(store)@,
                    store@,
                    x,
                    to[x],
                ),
        decreases n - i,
    {
        let p = ps.at(i);
        let ghost before = store@;
        let ghost sofar = qs@;
        let ghost earlier = to;
        let ghost prefix = ps@.subrange(0, i as int);
        let ghost next = ps@.subrange(0, i + 1);
        proof {
            assert(ps@.contains(ps@[i as int]));
            lemma_weight_extends(old(store)@, before, p);
            crate::collections::lemma_prefix_contains(ps@, i as int);
        }
        proof {
            if is_normal(old(store)@, p) {
                lemma_normal_extends(old(store)@, before, p);
            }
        }
        proof {
            if tame(old(store)@, p) {
                lemma_tame_extends(old(store)@, before, p);
            }
        }
        let q = simplify(store, p);
        qs = qs.with(q);
        proof {
            to = earlier.insert(p, q);
            let after = store@;
            assert(at_both(before, p, after, q));
            assert(part_simplified(old(store)@.weight(f), old(store)@, after, p, q));
            assert forall|x: Id| #[trigger] next.contains(x) implies part_simplified(
                old(store)@.weight(f),
                old(store)@,
                after,
                x,
                to[x],
            ) by {
                if x != p {
                    assert(prefix.contains(x));
                    lemma_part_extends(
                        old(store)@.weight(f),
                        old(store)@,
                        before,
                        after,
                        x,
                        earlier[x],
                    );
                }
            }
            assert forall|x: Id| next.contains(x) implies keeps(
                old(store)@,
                after,
                x,
                #[trigger] to[x],
            ) by {
                if x != p {
                    assert(prefix.contains(x));
                    assert(keeps(old(store)@, before, x, earlier[x]));
                    if tame(old(store)@, x) {
                        lemma_kept_extends(before, after, x, earlier[x]);
                    }
                }
            }
            assert forall|x: Id| next.contains(x) implies is_normal(after, #[trigger] to[x]) by {
                if x != p {
                    assert(prefix.contains(x));
                    assert(is_normal(before, earlier[x]));
                    lemma_normal_extends(before, after, earlier[x]);
                }
            }
            assert forall|x: Id| next.contains(x) && is_normal(old(store)@, x) implies #[trigger] to[x]
                == x by {
                if x != p {
                    assert(prefix.contains(x));
                }
            }
            assert(next[i as int] == p);
            assert(next.contains(p));
            lemma_weight_extends(before, after, p);
            assert forall|x: Id| #[trigger] next.contains(x) implies to.contains_key(x) && to[x]
                < after.formulae.len() && (to[x] == x || after.weight(to[x]) < after.weight(x)) by {
                if x != p {
                    assert(prefix.contains(x));
                    lemma_weight_extends(before, after, x);
                    lemma_weight_extends(before, after, earlier[x]);
                }
            }
            assert forall|z: Id| qs@.contains(z) <==> exists|x: Id|
                next.contains(x) && to[x] == z by {
                if qs@.contains(z) {
                    if z == q {
                        assert(next.contains(p) && to[p] == z);
                    } else {
                        assert(sofar.contains(z));
                        let x = choose|x: Id| prefix.contains(x) && earlier[x] == z;
                        assert(x != p) by {
                            if x == p {
                                let k = choose|k: int| 0 <= k < prefix.len() && prefix[k] == x;
                                assert(ps@[k] < ps@[i as int]);
                            }
                        }
                        assert(next.contains(x) && to[x] == z);
                    }
                }
                if exists|x: Id| next.contains(x) && to[x] == z {
                    let x = choose|x: Id| next.contains(x) && to[x] == z;
                    if x != p {
                        assert(prefix.contains(x) && earlier[x] == z);
                    }
                }
            }
        }
        i += 1;
    }
    proof {
        assert(ps@.subrange(0, n as int) =~= ps@);
        assert forall|i: int| 0 <= i < qs@.len() implies qs@[i] < store@.formulae.len() by {
            assert(qs@.contains(qs@[i]));
        }
    }
    (qs, Ghost(to))
}

/// What rebuilding a connective from the simplified forms of its members
/// gives: the connective itself, or a lighter one, whose members are normal.
pub proof fn lemma_rebuilt_members(
    before: StoreView,
    middle: StoreView,
    s: StoreView,
    f: Id,
    r: Id,
    ps: Seq<Id>,
    qs: Seq<Id>,
    to: Map<Id, Id>,
)
    requires
        before.wf(),
        middle.wf(),
        s.wf(),
        middle.extends(before),
        s.extends(middle),
        f < before.formulae.len(),
        (before.formulae[f as int] == FormulaView::And(ps) && s.is(r, FormulaView::And(qs))) || (
        before.formulae[f as int] == FormulaView::Or(ps) && s.is(r, FormulaView::Or(qs))) || (
        before.formulae[f as int] == FormulaView::Eqv(ps) && s.is(r, FormulaView::Eqv(qs))),
        lightens(middle, ps, to),
        image_of(qs, ps, to),
        forall|p: Id| ps.contains(p) ==> is_normal(middle, #[trigger] to[p]),
        forall|p: Id| ps.contains(p) && is_normal(before, p) ==> #[trigger] to[p] == p,
    ensures
        r == f || s.weight(r) < s.weight(f),
        parts_normal(s, r),
        parts_normal(before, f) ==> r == f,
{
    let extra: nat = if before.formulae[f as int] is Eqv { 2 } else { 0 };
    lemma_weight_extends(before, s, f);
    lemma_weight_unfold(s, f);
    lemma_weight_unfold(s, r);
    lemma_members_valid(s, f, ps);
    lemma_members_valid(s, r, qs);
    lemma_lightens_extends(middle, s, ps, to);
    lemma_image_lighter(s, ps, qs, to, extra);
    if qs == ps {
        lemma_interning(s, f, r);
    }
    assert forall|i: int| 0 <= i < qs.len() implies (#[trigger] qs[i]) < r && is_normal(
        s,
        qs[i],
    ) by {
        assert(qs.contains(qs[i]));
        let p = choose|p: Id| ps.contains(p) && to[p] == qs[i];
        assert(is_normal(middle, to[p]));
        lemma_normal_extends(middle, s, to[p]);
    }
    if parts_normal(before, f) {
        assert forall|x: Id| qs.contains(x) <==> ps.contains(x) by {
            if qs.contains(x) {
                let p = choose|p: Id| ps.contains(p) && to[p] == x;
                let k = choose|k: int| 0 <= k < ps.len() && ps[k] == p;
                assert(is_normal(before, ps[k]));
                assert(to[p] == p);
            }
            if ps.contains(x) {
                let k = choose|k: int| 0 <= k < ps.len() && ps[k] == x;
                assert(is_normal(before, ps[k]));
                assert(to[x] == x);
            }
        }
        lemma_ascending_unique(qs, ps);
        lemma_interning(s, f, r);
    }
}

/// What rebuilding a negation or a quantified formula from the simplified
/// form of its body gives.
pub proof fn lemma_rebuilt_body(
    before: StoreView,
    middle: StoreView,
    s: StoreView,
    f: Id,
    r: Id,
    p: Id,
    q: Id,
)
    requires
        before.wf(),
        middle.wf(),
        s.wf(),
        middle.extends(before),
        s.extends(middle),
        f < before.formulae.len(),
        (before.formulae[f as int] == FormulaView::Not(p) && s.is(r, FormulaView::Not(q))) || (
        before.formulae[f as int] == FormulaView::All(p) && s.is(r, FormulaView::All(q))) || (
        before.formulae[f as int] == FormulaView::Ex(p) && s.is(r, FormulaView::Ex(q))),
        q < middle.formulae.len(),
        q == p || middle.weight(q) < middle.weight(p),
        is_normal(middle, q),
        is_normal(before, p) ==> q == p,
    ensures
        r == f || s.weight(r) < s.weight(f),
        parts_normal(s, r),
        parts_normal(before, f) ==> r == f,
{
    assert(before.formula_ok(before.formulae[f as int], f as int));
    lemma_weight_extends(before, s, f);
    lemma_weight_extends(before, s, p);
    lemma_weight_extends(before, middle, p);
    lemma_weight_extends(middle, s, q);
    lemma_weight_unfold(s, f);
    lemma_weight_unfold(s, r);
    if q == p {
        lemma_interning(s, f, r);
    }
    lemma_normal_extends(middle, s, q);
    assert(s.formula_ok(s.formulae[r as int], r as int));
}

/// What rebuilding an implication from the simplified forms of its two
/// sides gives.
pub proof fn lemma_rebuilt_sides(
    before: StoreView,
    middle: StoreView,
    later: StoreView,
    s: StoreView,
    f: Id,
    r: Id,
    p: Id,
    q: Id,
    a: Id,
    b: Id,
)
    requires
        before.wf(),
        middle.wf(),
        later.wf(),
        s.wf(),
        middle.extends(before),
        later.extends(middle),
        s.extends(later),
        f < before.formulae.len(),
        before.formulae[f as int] == FormulaView::Imp(p, q),
        s.is(r, FormulaView::Imp(a, b)),
        a < middle.formulae.len(),
        a == p || middle.weight(a) < middle.weight(p),
        is_normal(middle, a),
        is_normal(before, p) ==> a == p,
        b < later.formulae.len(),
        b == q || later.weight(b) < later.weight(q),
        is_normal(later, b),
        is_normal(middle, q) ==> b == q,
    ensures
        r == f || s.weight(r) < s.weight(f),
        parts_normal(s, r),
        parts_normal(before, f) ==> r == f,
{
    assert(before.formula_ok(before.formulae[f as int], f as int));
    lemma_weight_extends(before, s, f);
    lemma_weight_extends(before, s, p);
    lemma_weight_extends(before, s, q);
    lemma_weight_extends(before, middle, p);
    lemma_weight_extends(before, later, q);
    lemma_weight_extends(middle, s, a);
    lemma_weight_extends(later, s, b);
    lemma_weight_unfold(s, f);
    lemma_weight_unfold(s, r);
    if a == p && b == q {
        lemma_interning(s, f, r);
    }
    lemma_normal_extends(middle, s, a);
    lemma_normal_extends(later, s, b);
    if is_normal(before, q) {
        lemma_normal_extends(before, middle, q);
    }
    assert(s.formula_ok(s.formulae[r as int], r as int));
}

/// The formula `f` with each of the formulae directly below its top
/// connective simplified.
fn simplify_children(store: &mut Store, f: Id) -> (r: Id)
    requires
        old(store).wf(),
        f < old(store)@.formulae.len(),
    ensures
        final(store).wf(),
        final(store)@.extends(old(store)@),
        r < final(store)@.formulae.len(),
        r == f || final(store)@.weight(r) < final(store)@.weight(f),
        parts_normal(final(store)@, r),
        parts_normal(old(store)@, f) ==> r == f,
        keeps(old(store)@, final(store)@, f, r),
        parts_simplified(old(store)@, final(store)@, f, r),
    decreases old(store)@.weight(f), 1nat,
{
    let ghost before = store@;
    proof {
        assert(before.formula_ok(before.formulae[f as int], f as int));
        lemma_weight_unfold(before, f);
    }
    match store.formula(f) {
        Formula::T | Formula::F | Formula::Prd(_, _) | Formula::Eq(_) => {
            proof {
                assert(agrees(before, f, f));
            }
            f
        },
        Formula::Not(p) => {
            let p = *p;
            let q = simplify(store, p);
            let ghost middle = store@;
            let r = store.intern(Formula::Not(q));
            proof {
                assert(at_both(before, p, middle, q));
                assert(part_simplified(before.weight(f), before, store@, p, q));
                assert(store@.is(r, FormulaView::Not(q)));
                lemma_rebuilt_body(before, middle, store@, f, r, p, q);
                if tame(before, f) {
                    lemma_body_sound(before, middle, store@, f, r, p, q);
                }
            }
            r
        },
        Formula::All(p) => {
            let p = *p;
            let q = simplify(store, p);
            let ghost middle = store@;
            let r = store.intern(Formula::All(q));
            proof {
                assert(at_both(before, p, middle, q));
                assert(part_simplified(before.weight(f), before, store@, p, q));
                assert(store@.is(r, FormulaView::All(q)));
                lemma_rebuilt_body(before, middle, store@, f, r, p, q);
            }
            r
        },
        Formula::Ex(p) => {
            let p = *p;
            let q = simplify(store, p);
            let ghost middle = store@;
            let r = store.intern(Formula::Ex(q));
            proof {
                assert(at_both(before, p, middle, q));
                assert(part_simplified(before.weight(f), before, store@, p, q));
                assert(store@.is(r, FormulaView::Ex(q)));
                lemma_rebuilt_body(before, middle, store@, f, r, p, q);
            }
            r
        },
        Formula::Imp(p, q) => {
            let p = *p;
            let q = *q;
            let a = simplify(store, p);
            let ghost middle = store@;
            proof {
                lemma_weight_extends(before, middle, q);
            }
            let b = simplify(store, q);
            let ghost later = store@;
            let r = store.intern(Formula::Imp(a, b));
            proof {
                assert(at_both(before, p, middle, a));
                assert(part_simplified(before.weight(f), before, store@, p, a));
                assert(at_both(middle, q, later, b));
                assert(part_simplified(before.weight(f), before, store@, q, b));
                assert(store@.is(r, FormulaView::Imp(a, b)));
                lemma_rebuilt_sides(before, middle, later, store@, f, r, p, q, a, b);
                if tame(before, f) {
                    lemma_sides_sound(before, middle, later, store@, f, r, p, q, a, b);
                }
            }
            r
        },
        Formula::And(ps) => {
            let ps = ps.clone();
            proof {
                lemma_member_lighter(before, f, ps@, 0);
            }
            let (qs, Ghost(to)) = simplify_members(store, &ps, Ghost(f));
            let ghost middle = store@;
            let ghost members = qs@;
            let r = store.intern(Formula::And(qs));
            proof {
                lemma_members_extend(before.weight(f), before, middle, store@, ps@, members, to);
                assert(crate::simplification::rounds::mapped(members, to));
                assert(store@.is(r, FormulaView::And(members)));
                lemma_rebuilt_members(before, middle, store@, f, r, ps@, members, to);
                if tame(before, f) {
                    lemma_members_sound(before, middle, store@, f, r, ps@, members, to);
                }
            }
            r
        },
        Formula::Or(ps) => {
            let ps = ps.clone();
            proof {
                lemma_member_lighter(before, f, ps@, 0);
            }
            let (qs, Ghost(to)) = simplify_members(store, &ps, Ghost(f));
            let ghost middle = store@;
            let ghost members = qs@;
            let r = store.intern(Formula::Or(qs));
            proof {
                lemma_members_extend(before.weight(f), before, middle, store@, ps@, members, to);
                assert(crate::simplification::rounds::mapped(members, to));
                assert(store@.is(r, FormulaView::Or(members)));
                lemma_rebuilt_members(before, middle, store@, f, r, ps@, members, to);
                if tame(before, f) {
                    lemma_members_sound(before, middle, store@, f, r, ps@, members, to);
                }
            }
            r
        },
        Formula::Eqv(ps) => {
            let ps = ps.clone();
            proof {
                lemma_member_lighter(before, f, ps@, 2);
            }
            let (qs, Ghost(to)) = simplify_members(store, &ps, Ghost(f));
            let ghost middle = store@;
            let ghost members = qs@;
            let r = store.intern(Formula::Eqv(qs));
            proof {
                lemma_members_extend(before.weight(f), before, middle, store@, ps@, members, to);
                assert(crate::simplification::rounds::mapped(members, to));
                assert(store@.is(r, FormulaView::Eqv(members)));
                lemma_rebuilt_members(before, middle, store@, f, r, ps@, members, to);
                if tame(before, f) {
                    lemma_members_sound(before, middle, store@, f, r, ps@, members, to);
                }
            }
            r
        },
    }
}

/// A map that lightens the members of a connective in a store does so in
/// every store that extends it.
pub proof fn lemma_lightens_extends(old: StoreView, new: StoreView, ps: Seq<Id>, to: Map<Id, Id>)
    requires
        new.extends(old),
        lightens(old, ps, to),
        forall|p: Id| ps.contains(p) ==> p < old.formulae.len(),
    ensures
        lightens(new, ps, to),
{
    assert forall|p: Id| #[trigger] ps.contains(p) implies to.contains_key(p) && to[p]
        < new.formulae.len() && (to[p] == p || new.weight(to[p]) < new.weight(p)) by {
        lemma_weight_extends(old, new, p);
        lemma_weight_extends(old, new, to[p]);
    }
}

/// A member of a connective is lighter than the connective.
pub proof fn lemma_member_lighter(s: StoreView, f: Id, ps: Seq<Id>, extra: nat)
    requires
        s.wf(),
        f < s.formulae.len(),
        extra == 0 && (s.formulae[f as int] == FormulaView::And(ps) || s.formulae[f as int]
            == FormulaView::Or(ps)) || extra == 2 && s.formulae[f as int] == FormulaView::Eqv(ps),
    ensures
        forall|p: Id| ps.contains(p) ==> p < f && s.weight(p) < s.weight(f),
{
    lemma_weight_unfold(s, f);
    lemma_members_valid(s, f, ps);
    assert forall|p: Id| ps.contains(p) implies p < f && s.weight(p) < s.weight(f) by {
        let k = choose|k: int| 0 <= k < ps.len() && ps[k] == p;
        lemma_sum_remove(ps, s.member_weight(extra), k);
    }
}

/// The body of the quantified formula `f`, if it is normal, the bound
/// variable does not occur in it, and no variable of it is bound further
/// out.
pub open spec fn normal_body(s: StoreView, f: Id) -> Option<Id> {
    match settled_body(s, f) {
        Some(p) => if is_normal(s, p) {
            Some(p)
        } else {
            None
        },
        None => None,
    }
}

/// The body of a quantified formula is its body in every store that
/// extends the store.
pub proof fn lemma_normal_body_extends(old: StoreView, new: StoreView, f: Id)
    requires
        old.wf(),
        new.wf(),
        new.extends(old),
        f < old.formulae.len(),
        normal_body(old, f) is Some,
    ensures
        normal_body(new, f) == normal_body(old, f),
{
    let p = normal_body(old, f).unwrap();
    assert(new.formulae[f as int] == old.formulae[f as int]);
    assert(old.formula_ok(old.formulae[f as int], f as int));
    lemma_var_free_extends(old, new, p, 0);
    lemma_stable_extends(old, new, p, 0);
    lemma_normal_extends(old, new, p);
}

/// Whether `f` is an equation with fewer than two terms.
pub open spec fn trivial_equation(s: StoreView, f: Id) -> bool {
    match s.formulae[f as int] {
        FormulaView::Eq(ts) => ts.len() < 2,
        _ => false,
    }
}

/// One round of rewriting: the formulae below the top connective are
/// simplified, then each rewrite is tried once at the top, last the
/// dropping of a quantifier that binds nothing.
fn simplify_step(store: &mut Store, f: Id) -> (r: Id)
    requires
        old(store).wf(),
        f < old(store)@.formulae.len(),
    ensures
        final(store).wf(),
        final(store)@.extends(old(store)@),
        r < final(store)@.formulae.len(),
        r == f || final(store)@.weight(r) < final(store)@.weight(f),
        r == f ==> is_normal(final(store)@, f),
        is_normal(old(store)@, f) ==> r == f,
        keeps(old(store)@, final(store)@, f, r),
        old(store)@.formulae[f as int] is T ==> r == f,
        trivial_equation(old(store)@, f) ==> final(store)@.is(r, FormulaView::T),
        normal_body(old(store)@, f) matches Some(p) ==> r == p,
        rewritten_once(old(store)@, final(store)@, f, r),
    decreases old(store)@.weight(f), 2nat,
{
    let ghost s0 = store@;
    let a = simplify_children(store, f);
    let ghost s1 = store@;
    let b = simplify_propositional(store, a);
    let ghost s2 = store@;
    let c = simplify_equational(store, b);
    let ghost s3 = store@;
    let d = drop_vacuous(store, c);
    proof {
        let s = store@;
        lemma_weight_extends(s1, s, a);
        lemma_weight_extends(s1, s, f);
        lemma_weight_extends(s2, s, a);
        lemma_weight_extends(s2, s, b);
        lemma_weight_extends(s3, s, b);
        lemma_weight_extends(s3, s, c);
        lemma_normal_parts(s, f);
        lemma_normal_parts(s0, f);
        if d == f {
            assert(a == f && b == f && c == f);
            lemma_parts_normal_extends(s1, s, f);
            lemma_root_normal_extends(s2, s3, f);
            lemma_root_normal_extends(s3, s, f);
        }
        if is_normal(s0, f) {
            assert(a == f);
            lemma_root_normal_extends(s0, s1, f);
            assert(b == f);
            lemma_root_normal_extends(s0, s2, f);
            assert(c == f);
            lemma_vacuous_extends(s0, s3, f);
            assert(d == f);
        }
        if s0.formulae[f as int] is T {
            assert(a == f);
            assert(propositionally_normal(s1, f));
            assert(b == f);
            assert(equationally_normal(s2, f));
            assert(c == f);
            assert(!vacuous(s3, f));
        }
        let w = Round {
            rebuilt_in: s1,
            rebuilt: a,
            propositional_in: s2,
            propositional: b,
            equational_in: s3,
            equational: c,
        };
        assert(at_both(w.rebuilt_in, w.rebuilt, w.equational_in, w.equational));
        assert(rewritten_once(s0, s, f, d));
        if normal_body(s0, f) is Some {
            lemma_normal_body_extends(s0, s1, f);
            lemma_normal_body_extends(s0, s2, f);
            lemma_normal_body_extends(s0, s3, f);
            assert(parts_normal(s0, f));
            assert(a == f);
            assert(propositionally_normal(s1, f));
            assert(b == f);
            assert(equationally_normal(s2, f));
            assert(c == f);
        }
        if trivial_equation(s0, f) {
            assert(a == f);
            assert(s2.is(b, FormulaView::T));
            assert(equationally_normal(s2, b));
            assert(c == b);
            assert(!vacuous(s3, c));
            assert(d == c);
        }
        if tame(s0, f) {
            lemma_agrees_extends(s1, s3, f, a);
            lemma_agrees_extends(s2, s3, a, b);
            lemma_agrees_trans(s3, f, a, b);
            lemma_agrees_trans(s3, f, b, c);
            assert(tame(s3, c));
            assert(!vacuous(s3, c));
            assert(d == c);
            lemma_tame_extends(s3, s, c);
            lemma_agrees_extends(s3, s, f, c);
        }
    }
    d
}

/// The propositional rewrites, each tried once at the top of `f`.
///
/// The result is `f` itself, or lighter than `f`; and it is `f` itself
/// exactly where none of the rewrites changes `f`.
pub fn simplify_propositional(store: &mut Store, f: Id) -> (r: Id)
    requires
        old(store).wf(),
        f < old(store)@.formulae.len(),
    ensures
        final(store).wf(),
        final(store)@.extends(old(store)@),
        r < final(store)@.formulae.len(),
        r == f || final(store)@.weight(r) < final(store)@.weight(f),
        r == f ==> propositionally_normal(final(store)@, f),
        propositionally_normal(old(store)@, f) ==> r == f,
        tame(old(store)@, f) && parts_normal(old(store)@, f) ==> tame(final(store)@, r) && agrees(
            final(store)@,
            f,
            r,
        ),
        trivial_equation(old(store)@, f) ==> final(store)@.is(r, FormulaView::T),
        propositionally_rewritten(old(store)@, final(store)@, f, r),
{
    let ghost s0 = store@;
    let a = boolean_propagation(store, f);
    let ghost s1 = store@;
    let b = contradiction(store, a);
    let ghost s2 = store@;
    let c = combine_classes(store, b, true);
    let ghost s3 = store@;
    let d = combine_implications(store, c);
    let ghost s4 = store@;
    let e = double_negation(store, d);
    let g = lift_associative(store, e);
    let ghost s5 = store@;
    let h = trivial_nary(store, g);
    proof {
        let s = store@;
        lemma_propagated_lighter(s1, f, a);
        lemma_contradicted_lighter(s2, a, b);
        lemma_combined_lighter(s3, b, c, true);
        lemma_implications_lighter(s4, c, d);
        lemma_unnegated_lighter(s4, d, e);
        lemma_flattened_lighter(s5, e, g);
        lemma_trivialised_lighter(s, g, h);
        lemma_weight_extends(s1, s, f);
        lemma_weight_extends(s1, s, a);
        lemma_weight_extends(s2, s, a);
        lemma_weight_extends(s2, s, b);
        lemma_weight_extends(s3, s, b);
        lemma_weight_extends(s3, s, c);
        lemma_weight_extends(s4, s, c);
        lemma_weight_extends(s4, s, d);
        lemma_weight_extends(s4, s, e);
        lemma_weight_extends(s5, s, e);
        lemma_weight_extends(s5, s, g);
        if h == f {
            assert(a == f && b == f && c == f && d == f && e == f && g == f);
            crate::simplification::normal::lemma_propagated_kept(s1, s, f);
            crate::simplification::normal::lemma_contradicted_kept(s2, s, f);
            crate::simplification::normal::lemma_combined_kept(s3, s, f, true);
            crate::simplification::normal::lemma_implications_kept(s4, s, f);
            crate::simplification::normal::lemma_trivialised_kept(s4, s, f);
            crate::simplification::normal::lemma_flattened_kept(s5, s, f);
        }
        if trivial_equation(s0, f) {
            assert(a == f && b == f && c == f && d == f && e == f && g == f);
            assert(s.formulae[f as int] == s0.formulae[f as int]);
        }
        let w = Passes {
            propagated_in: s1,
            propagated: a,
            contradicted_in: s2,
            contradicted: b,
            combined_in: s3,
            combined: c,
            paired_in: s4,
            paired: d,
            unnegated: e,
            flattened_in: s5,
            flattened: g,
        };
        assert(passes_hold(w, s, f, h));
        if tame(s0, f) && parts_normal(s0, f) {
            assert(agrees(s0, f, f));
            lemma_stage_propagated(s0, s1, f, f, a);
            lemma_stage_contradicted(s1, s2, f, a, b);
            lemma_stage_combined(s2, s3, f, b, c, true);
            lemma_stage_implications(s3, s4, f, c, d);
            lemma_stage_rest(s4, s5, s, f, d, e, g, h);
        }
        if propositionally_normal(s0, f) {
            crate::simplification::normal::lemma_propagated_kept(s0, s1, f);
            lemma_propagated_unique(s1, f, f, a);
            crate::simplification::normal::lemma_contradicted_kept(s0, s2, f);
            lemma_contradicted_unique(s2, f, f, b);
            crate::simplification::normal::lemma_combined_kept(s0, s3, f, true);
            lemma_combined_unique(s3, f, f, c, true);
            crate::simplification::normal::lemma_implications_kept(s0, s4, f);
            lemma_implications_unique(s4, f, f, d);
            crate::simplification::normal::lemma_trivialised_kept(s0, s4, f);
            lemma_trivialised_unique(s4, f, f, e);
            crate::simplification::normal::lemma_flattened_kept(s0, s5, f);
            lemma_flattened_unique(s5, f, f, g);
            crate::simplification::normal::lemma_trivialised_kept(s0, s, f);
            lemma_trivialised_unique(s, f, f, h);
        }
    }
    h
}

/// The equational rewrites, each tried once at the top of `f`.
///
/// The result is `f` itself, or lighter than `f`; and it is `f` itself
/// exactly where none of the rewrites changes `f`.
pub fn simplify_equational(store: &mut Store, f: Id) -> (r: Id)
    requires
        old(store).wf(),
        f < old(store)@.formulae.len(),
    ensures
        final(store).wf(),
        final(store)@.extends(old(store)@),
        r < final(store)@.formulae.len(),
        r == f || final(store)@.weight(r) < final(store)@.weight(f),
        r == f ==> equationally_normal(final(store)@, f),
        equationally_normal(old(store)@, f) ==> r == f,
        keeps(old(store)@, final(store)@, f, r),
        equationally_rewritten(old(store)@, final(store)@, f, r),
{
    let ghost s0 = store@;
    let a = trivial_equality(store, f);
    let ghost s1 = store@;
    let b = combine_equations(store, a);
    proof {
        let s = store@;
        lemma_weight_unfold(s1, f);
        lemma_weight_unfold(s1, a);
        lemma_combined_lighter(s, a, b, false);
        lemma_weight_extends(s1, s, f);
        lemma_weight_extends(s1, s, a);
        if b == f {
            assert(a == f);
            crate::simplification::normal::lemma_trivialised_kept(s1, s, f);
        }
        if tame(s0, f) {
            lemma_stage_equational(s0, s1, s, f, a, b);
        }
        assert(equations_hold(s1, a, s, f, b));
        if equationally_normal(s0, f) {
            crate::simplification::normal::lemma_trivialised_kept(s0, s1, f);
            lemma_trivialised_unique(s1, f, f, a);
            crate::simplification::normal::lemma_combined_kept(s0, s, f, false);
            lemma_combined_unique(s, f, f, b, false);
        }
    }
    b
}

/// Rewrites `f` until a round of rewriting changes nothing.
///
/// The result is normal: simplifying it again gives it back. A formula that
/// is normal already is its own result; any other result is lighter than
/// the formula. An equation with fewer than two terms gives `T`. A
/// quantified formula gives its body, if the body is normal, the bound
/// variable does not occur in it, and no variable of it is bound further
/// out.
pub fn simplify(store: &mut Store, f: Id) -> (r: Id)
    requires
        old(store).wf(),
        f < old(store)@.formulae.len(),
    ensures
        final(store).wf(),
        final(store)@.extends(old(store)@),
        r < final(store)@.formulae.len(),
        r == f || final(store)@.weight(r) < final(store)@.weight(f),
        is_normal(final(store)@, r),
        is_normal(old(store)@, f) ==> r == f,
        tame(old(store)@, f) ==> tame(final(store)@, r) && agrees(final(store)@, f, r),
        trivial_equation(old(store)@, f) ==> final(store)@.is(r, FormulaView::T),
        normal_body(old(store)@, f) matches Some(p) ==> r == p,
        simplified(old(store)@, final(store)@, f, r),
    decreases old(store)@.weight(f), 3nat,
{
    let mut current = f;
    proof {
        assert(agrees(store@, f, f));
    }
    loop
        invariant
            store.wf(),
            old(store)@.wf(),
            store@.extends(old(store)@),
            f < old(store)@.formulae.len(),
            current < store@.formulae.len(),
            current == f || store@.weight(current) < store@.weight(f),
            store@.weight(f) == old(store)@.weight(f),
            is_normal(old(store)@, f) ==> current == f,
            keeps(old(store)@, store@, f, current),
            trivial_equation(old(store)@, f) ==> current == f || store@.is(current, FormulaView::T),
            normal_body(old(store)@, f) matches Some(p) ==> current == f || current == p,
            forall|fin: StoreView, z: Id| #[trigger]
                simplified(store@, fin, current, z) ==> simplified(old(store)@, fin, f, z),
        decreases store@.weight(current),
    {
        let ghost before = store@;
        proof {
            if normal_body(old(store)@, f) is Some {
                lemma_normal_body_extends(old(store)@, before, f);
                lemma_normal_extends(old(store)@, before, normal_body(old(store)@, f).unwrap());
            }
        }
        let simplified = simplify_step(store, current);
        proof {
            assert(before.formulae[f as int] == old(store)@.formulae[f as int]);
            lemma_weight_extends(before, store@, current);
            lemma_weight_extends(before, store@, f);
            lemma_weight_extends(old(store)@, store@, f);
            if is_normal(old(store)@, f) {
                lemma_normal_extends(old(store)@, before, f);
            }
            if tame(old(store)@, f) {
                lemma_agrees_extends(before, store@, f, current);
                lemma_agrees_trans(store@, f, current, simplified);
            }
        }
        if simplified == current {
            proof {
                assert(at(store@, current));
                assert(crate::simplification::rounds::simplified(
                    before,
                    store@,
                    current,
                    current,
                ));
            }
            return current;
        }
        proof {
            let after = store@;
            assert forall|fin: StoreView, z: Id| #[trigger]
                crate::simplification::rounds::simplified(
                    after,
                    fin,
                    simplified,
                    z,
                ) implies crate::simplification::rounds::simplified(old(store)@, fin, f, z) by {
                assert(at(after, simplified));
                assert(crate::simplification::rounds::simplified(before, fin, current, z));
            }
        }
        current = simplified;
    }
}

} // verus!
