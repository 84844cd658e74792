//! Merging classes gives back the conjunction it was given, or a lighter one.

use crate::collections::{
    absorbed,
    ascending,
    combined,
    first_overlap,
    inserted,
    joined,
    lemma_ascending_unique,
    lemma_swept_length,
    lemma_swept_members,
    swept,
    lemma_first_overlap_range,
    lemma_inserted,
    lemma_push_ascending,
    lemma_push_contains,
    Id,
};
use crate::formula::FormulaView;
use crate::measure::{lemma_sum_inserted, lemma_sum_joined, lemma_weight_unfold, sum};
use crate::simplification::classes::{
    class_among, classes_combined, eq_class_of, eq_classes, eqv_class_of, eqv_classes,
    lemma_classes_ascending, lemma_classes_from_members, member_combined, member_eq_class,
    member_eqv_class, member_kept,
};
use crate::simplification::lighter::lemma_members_valid;
use crate::store::{lemma_interning, StoreView};
use vstd::prelude::*;

verus! {

/// The value that counts every member for nothing.
pub open spec fn nothing() -> spec_fn(Id) -> nat {
    |x: Id| 0nat
}

/// The weight of a sequence of classes: two for each class, and the values
/// of its members.
pub open spec fn classes_weight(classes: Seq<Seq<Id>>, val: spec_fn(Id) -> nat) -> nat
    decreases classes.len(),
{
    if classes.len() == 0 {
        0
    } else {
        classes_weight(classes.drop_last(), val) + 2 + sum(classes.last(), val)
    }
}

/// Replacing one class changes the weight by the difference of the two.
pub proof fn lemma_classes_weight_update(
    classes: Seq<Seq<Id>>,
    k: int,
    class: Seq<Id>,
    val: spec_fn(Id) -> nat,
)
    requires
        0 <= k < classes.len(),
    ensures
        classes_weight(classes.update(k, class), val) + sum(classes[k], val) == classes_weight(
            classes,
            val,
        ) + sum(class, val),
    decreases classes.len(),
{
    let changed = classes.update(k, class);
    if k == classes.len() - 1 {
        assert(changed.drop_last() =~= classes.drop_last());
    } else {
        lemma_classes_weight_update(classes.drop_last(), k, class, val);
        assert(changed.drop_last() =~= classes.drop_last().update(k, class));
        assert(changed.last() == classes.last());
    }
}

/// Taking a class in adds at most its weight, and two less where it is
/// merged into another.
pub proof fn lemma_absorbed_weight(classes: Seq<Seq<Id>>, class: Seq<Id>, val: spec_fn(Id) -> nat)
    requires
        forall|i: int| 0 <= i < classes.len() ==> ascending(#[trigger] classes[i]),
    ensures
        classes_weight(absorbed(classes, class), val) <= classes_weight(classes, val) + 2 + sum(
            class,
            val,
        ),
        first_overlap(classes, class, 0) < classes.len() ==> classes_weight(
            absorbed(classes, class),
            val,
        ) <= classes_weight(classes, val) + sum(class, val),
        first_overlap(classes, class, 0) >= classes.len() ==> absorbed(classes, class)
            == classes.push(class),
{
    let k = first_overlap(classes, class, 0);
    lemma_first_overlap_range(classes, class, 0);
    if k < classes.len() {
        lemma_classes_weight_update(classes, k, joined(classes[k], class), val);
        lemma_sum_joined(classes[k], class, val);
    } else {
        assert(classes.push(class).drop_last() =~= classes);
    }
}

/// A sweep over classes changes nothing, or takes at least two off their
/// weight.
pub proof fn lemma_swept_weight(classes: Seq<Seq<Id>>, val: spec_fn(Id) -> nat)
    requires
        forall|i: int| 0 <= i < classes.len() ==> ascending(#[trigger] classes[i]),
    ensures
        swept(classes) == classes || classes_weight(swept(classes), val) + 2
            <= classes_weight(classes, val),
    decreases classes.len(),
{
    if classes.len() == 0 {
        assert(swept(classes) =~= classes);
    } else {
        let front = classes.drop_last();
        let last = classes.last();
        assert forall|i: int| 0 <= i < front.len() implies ascending(#[trigger] front[i]) by {
            assert(front[i] == classes[i]);
        }
        lemma_swept_weight(front, val);
        lemma_swept_members(front);
        lemma_absorbed_weight(swept(front), last, val);
        assert(classes =~= front.push(last));
    }
}

/// Combining classes changes nothing, or takes at least two off their
/// weight.
pub proof fn lemma_combined_weight(classes: Seq<Seq<Id>>, val: spec_fn(Id) -> nat)
    requires
        forall|i: int| 0 <= i < classes.len() ==> ascending(#[trigger] classes[i]),
    ensures
        combined(classes) == classes || classes_weight(combined(classes), val) + 2
            <= classes_weight(classes, val),
    decreases classes.len(),
{
    let once = swept(classes);
    lemma_swept_weight(classes, val);
    lemma_swept_length(classes);
    lemma_swept_members(classes);
    if once.len() < classes.len() {
        lemma_combined_weight(once, val);
    }
}

/// The members of `ps` that merging leaves alone, in the order of `ps`.
pub open spec fn kept_seq(s: StoreView, ps: Seq<Id>, equivalences: bool) -> Seq<Id>
    decreases ps.len(),
{
    if ps.len() == 0 {
        Seq::empty()
    } else {
        let rest = kept_seq(s, ps.drop_last(), equivalences);
        if !(s.formulae[ps.last() as int] is Eq) && !(equivalences && s.formulae[ps.last() as int] is Eqv) {
            rest.push(ps.last())
        } else {
            rest
        }
    }
}

/// The members of a conjunction weigh what the members left alone and the
/// classes among them weigh together.
pub proof fn lemma_partition(s: StoreView, ps: Seq<Id>, equivalences: bool)
    requires
        s.wf(),
        ascending(ps),
        forall|i: int| 0 <= i < ps.len() ==> ps[i] < s.formulae.len(),
    ensures
        ascending(kept_seq(s, ps, equivalences)),
        forall|z: Id|
            kept_seq(s, ps, equivalences).contains(z) <==> member_kept(s, ps, z, equivalences),
        sum(ps, s.member_weight(0)) == sum(kept_seq(s, ps, equivalences), s.member_weight(0))
            + classes_weight(eq_classes(s, ps), nothing()) + (if equivalences {
            classes_weight(eqv_classes(s, ps), s.member_weight(2))
        } else {
            0
        }),
    decreases ps.len(),
{
    let val = s.member_weight(0);
    let out = kept_seq(s, ps, equivalences);
    if ps.len() == 0 {
        assert forall|z: Id| out.contains(z) <==> member_kept(s, ps, z, equivalences) by {}
    } else {
        let front = ps.drop_last();
        let last = ps.last();
        let rest = kept_seq(s, front, equivalences);
        assert(ps =~= front.push(last));
        assert(last == ps[ps.len() - 1]);
        lemma_push_contains(front, last);
        assert(ascending(front)) by {
            assert forall|i: int, j: int| 0 <= i < j < front.len() implies front[i] < front[j] by {
                assert(ps[i] < ps[j]);
            }
        }
        assert forall|i: int| 0 <= i < front.len() implies front[i] < s.formulae.len() by {
            assert(front[i] == ps[i]);
        }
        lemma_partition(s, front, equivalences);
        lemma_weight_unfold(s, last);
        assert forall|z: Id| rest.contains(z) implies z < last by {
            assert(member_kept(s, front, z, equivalences));
            assert(front.contains(z));
            let k = choose|k: int| 0 <= k < front.len() && front[k] == z;
            assert(ps[k] < ps[ps.len() - 1]);
        }
        lemma_sum_nothing(eq_class_of(s, last));
        if !(s.formulae[last as int] is Eq) && !(equivalences && s.formulae[last as int] is Eqv) {
            lemma_push_ascending(rest, last);
            lemma_push_contains(rest, last);
            assert(rest.push(last).drop_last() =~= rest);
            assert forall|z: Id| out.contains(z) <==> member_kept(s, ps, z, equivalences) by {
                assert(rest.contains(z) <==> member_kept(s, front, z, equivalences));
            }
        } else {
            assert forall|z: Id| out.contains(z) <==> member_kept(s, ps, z, equivalences) by {
                assert(rest.contains(z) <==> member_kept(s, front, z, equivalences));
            }
            match s.formulae[last as int] {
                FormulaView::Eq(ts) => {
                    assert(eq_classes(s, ps) == eq_classes(s, front).push(ts));
                    assert(eq_classes(s, ps).drop_last() =~= eq_classes(s, front));
                },
                FormulaView::Eqv(qs) => {
                    assert(eqv_classes(s, ps) == eqv_classes(s, front).push(qs));
                    assert(eqv_classes(s, ps).drop_last() =~= eqv_classes(s, front));
                },
                _ => {},
            }
        }
    }
}

/// A sum of nothing is nothing.
pub proof fn lemma_sum_nothing(ids: Seq<Id>)
    ensures
        sum(ids, nothing()) == 0,
    decreases ids.len(),
{
    if ids.len() > 0 {
        lemma_sum_nothing(ids.drop_last());
    }
}

/// Whether `z` is the equation (or, with `equivalences`, the equivalence
/// class) with the members `class`.
pub open spec fn is_class(s: StoreView, z: Id, class: Seq<Id>, equivalences: bool) -> bool {
    if equivalences {
        s.is(z, FormulaView::Eqv(class))
    } else {
        s.is(z, FormulaView::Eq(class))
    }
}

/// Whether `z` is the formula of one of `classes`.
pub open spec fn is_one_of(s: StoreView, z: Id, classes: Seq<Seq<Id>>, equivalences: bool) -> bool {
    exists|k: int| 0 <= k < classes.len() && is_class(s, z, #[trigger] classes[k], equivalences)
}

/// `base` with the formulae of those of `classes` that the store holds.
pub open spec fn with_nodes(
    s: StoreView,
    base: Seq<Id>,
    classes: Seq<Seq<Id>>,
    equivalences: bool,
) -> Seq<Id>
    decreases classes.len(),
{
    if classes.len() == 0 {
        base
    } else {
        let rest = with_nodes(s, base, classes.drop_last(), equivalences);
        if exists|z: Id| is_class(s, z, classes.last(), equivalences) {
            inserted(rest, choose|z: Id| is_class(s, z, classes.last(), equivalences))
        } else {
            rest
        }
    }
}

/// `with_nodes` is ascending, and what it weighs at most.
pub proof fn lemma_with_nodes(
    s: StoreView,
    base: Seq<Id>,
    classes: Seq<Seq<Id>>,
    equivalences: bool,
)
    requires
        s.wf(),
        ascending(base),
    ensures
        ascending(with_nodes(s, base, classes, equivalences)),
        sum(with_nodes(s, base, classes, equivalences), s.member_weight(0)) <= sum(
            base,
            s.member_weight(0),
        ) + classes_weight(
            classes,
            if equivalences {
                s.member_weight(2)
            } else {
                nothing()
            },
        ),
    decreases classes.len(),
{
    let val = s.member_weight(0);
    if classes.len() > 0 {
        let front = classes.drop_last();
        let last = classes.last();
        let rest = with_nodes(s, base, front, equivalences);
        lemma_with_nodes(s, base, front, equivalences);
        lemma_sum_nothing(last);
        if exists|z: Id| is_class(s, z, last, equivalences) {
            let e = choose|z: Id| is_class(s, z, last, equivalences);
            lemma_inserted(rest, e);
            lemma_sum_inserted(rest, e, val);
            lemma_weight_unfold(s, e);
        }
    }
}

/// What `with_nodes` holds.
pub proof fn lemma_with_nodes_member(
    s: StoreView,
    base: Seq<Id>,
    classes: Seq<Seq<Id>>,
    equivalences: bool,
    z: Id,
)
    requires
        s.wf(),
        ascending(base),
    ensures
        with_nodes(s, base, classes, equivalences).contains(z) <==> (base.contains(z) || is_one_of(
            s,
            z,
            classes,
            equivalences,
        )),
    decreases classes.len(),
{
    let out = with_nodes(s, base, classes, equivalences);
    if classes.len() > 0 {
        let front = classes.drop_last();
        let last = classes.last();
        let rest = with_nodes(s, base, front, equivalences);
        lemma_with_nodes(s, base, front, equivalences);
        lemma_with_nodes_member(s, base, front, equivalences, z);
        assert(last == classes[classes.len() - 1]);
        if is_one_of(s, z, front, equivalences) {
            let k = choose|k: int|
                0 <= k < front.len() && is_class(s, z, #[trigger] front[k], equivalences);
            assert(front[k] == classes[k]);
            assert(is_class(s, z, classes[k], equivalences));
        }
        if exists|e: Id| is_class(s, e, last, equivalences) {
            let e = choose|e: Id| is_class(s, e, last, equivalences);
            lemma_inserted(rest, e);
            assert(out == inserted(rest, e));
            if z == e {
                assert(is_class(s, z, classes[classes.len() - 1], equivalences));
            }
            if is_one_of(s, z, classes, equivalences) {
                let k = choose|k: int|
                    0 <= k < classes.len() && is_class(s, z, #[trigger] classes[k], equivalences);
                if k < front.len() {
                    assert(front[k] == classes[k]);
                    assert(is_class(s, z, front[k], equivalences));
                } else {
                    lemma_interning(s, z, e);
                }
            }
        } else {
            assert(out == rest);
            if is_one_of(s, z, classes, equivalences) {
                let k = choose|k: int|
                    0 <= k < classes.len() && is_class(s, z, #[trigger] classes[k], equivalences);
                if k < front.len() {
                    assert(front[k] == classes[k]);
                    assert(is_class(s, z, front[k], equivalences));
                } else {
                    assert(is_class(s, z, last, equivalences));
                }
            }
        }
    } else {
        if is_one_of(s, z, classes, equivalences) {
            let k = choose|k: int|
                0 <= k < classes.len() && is_class(s, z, #[trigger] classes[k], equivalences);
        }
    }
}

/// The class of every equation among `ps` is among the classes of `ps`, and
/// so is every equivalence class among `ps`.
pub proof fn lemma_class_listed(s: StoreView, ps: Seq<Id>, x: Id)
    requires
        ps.contains(x),
    ensures
        s.formulae[x as int] is Eq ==> exists|k: int|
            0 <= k < eq_classes(s, ps).len() && #[trigger] eq_classes(s, ps)[k] == eq_class_of(
                s,
                x,
            ),
        s.formulae[x as int] is Eqv ==> exists|k: int|
            0 <= k < eqv_classes(s, ps).len() && #[trigger] eqv_classes(s, ps)[k] == eqv_class_of(
                s,
                x,
            ),
    decreases ps.len(),
{
    let front = ps.drop_last();
    let last = ps.last();
    assert(ps =~= front.push(last));
    lemma_push_contains(front, last);
    if x != last {
        lemma_class_listed(s, front, x);
        if s.formulae[x as int] is Eq {
            let k = choose|k: int|
                0 <= k < eq_classes(s, front).len() && #[trigger] eq_classes(s, front)[k]
                    == eq_class_of(s, x);
            assert(eq_classes(s, ps)[k] == eq_class_of(s, x));
        }
        if s.formulae[x as int] is Eqv {
            let k = choose|k: int|
                0 <= k < eqv_classes(s, front).len() && #[trigger] eqv_classes(s, front)[k]
                    == eqv_class_of(s, x);
            assert(eqv_classes(s, ps)[k] == eqv_class_of(s, x));
        }
    } else {
        if s.formulae[x as int] is Eq {
            let k = eq_classes(s, front).len() as int;
            assert(eq_classes(s, ps)[k] == eq_class_of(s, x));
        }
        if s.formulae[x as int] is Eqv {
            let k = eqv_classes(s, front).len() as int;
            assert(eqv_classes(s, ps)[k] == eqv_class_of(s, x));
        }
    }
}

/// Whether merging the classes of the conjunction `f` changes none of them.
pub open spec fn classes_fixed(s: StoreView, f: Id, equivalences: bool) -> bool {
    match s.formulae[f as int] {
        FormulaView::And(ps) => combined(eq_classes(s, ps)) == eq_classes(s, ps) && (equivalences
            ==> combined(eqv_classes(s, ps)) == eqv_classes(s, ps)),
        _ => true,
    }
}

/// Merging gives back its formula, or a lighter one; and it gives back its
/// formula only where it changes none of the classes.
pub proof fn lemma_combined_lighter(s: StoreView, f: Id, r: Id, equivalences: bool)
    requires
        s.wf(),
        f < s.formulae.len(),
        r < s.formulae.len(),
        classes_combined(s, f, r, equivalences),
    ensures
        r == f || s.weight(r) < s.weight(f),
        r == f ==> classes_fixed(s, f, equivalences),
{
    lemma_weight_unfold(s, f);
    lemma_weight_unfold(s, r);
    match s.formulae[f as int] {
        FormulaView::And(ps) => {
            match s.formulae[r as int] {
                FormulaView::And(qs) => {
                    lemma_members_valid(s, f, ps);
                    assert forall|i: int| 0 <= i < ps.len() implies ps[i] < s.formulae.len() by {
                        assert(ps.contains(ps[i]));
                    }
                    let val = s.member_weight(0);
                    let base = kept_seq(s, ps, equivalences);
                    let eqs = eq_classes(s, ps);
                    let eqvs = eqv_classes(s, ps);
                    let merged_eqs = combined(eqs);
                    let merged_eqvs = combined(eqvs);
                    lemma_partition(s, ps, equivalences);
                    lemma_classes_ascending(s, ps);
                    lemma_combined_weight(eqs, nothing());
                    lemma_combined_weight(eqvs, s.member_weight(2));
                    let middle = with_nodes(s, base, merged_eqs, false);
                    lemma_with_nodes(s, base, merged_eqs, false);
                    let built = if equivalences {
                        with_nodes(s, middle, merged_eqvs, true)
                    } else {
                        middle
                    };
                    if equivalences {
                        lemma_with_nodes(s, middle, merged_eqvs, true);
                    }
                    assert forall|z: Id| qs.contains(z) <==> built.contains(z) by {
                        assert(qs.contains(z) <==> member_combined(s, ps, z, equivalences));
                        lemma_one_of(s, z, merged_eqs, false);
                        lemma_one_of(s, z, merged_eqvs, true);
                        assert(base.contains(z) <==> member_kept(s, ps, z, equivalences));
                        lemma_with_nodes_member(s, base, merged_eqs, false, z);
                        if equivalences {
                            lemma_with_nodes_member(s, middle, merged_eqvs, true, z);
                        }
                        assert(middle.contains(z) <==> (base.contains(z) || is_one_of(
                            s,
                            z,
                            merged_eqs,
                            false,
                        )));
                        assert(is_one_of(s, z, merged_eqs, false) <==> member_eq_class(s, ps, z));
                        assert(is_one_of(s, z, merged_eqvs, true) <==> member_eqv_class(
                            s,
                            ps,
                            z,
                        ));
                        if equivalences {
                            assert(built.contains(z) <==> (middle.contains(z) || is_one_of(
                                s,
                                z,
                                merged_eqvs,
                                true,
                            )));
                        }
                    }
                    lemma_ascending_unique(qs, built);
                    if merged_eqs == eqs && (!equivalences || merged_eqvs == eqvs) {
                        lemma_classes_from_members(s, ps);
                        assert forall|z: Id| qs.contains(z) <==> ps.contains(z) by {
                            assert(qs.contains(z) <==> member_combined(s, ps, z, equivalences));
                            if member_eq_class(s, ps, z) {
                                let k = choose|k: int|
                                    0 <= k < eqs.len() && #[trigger] eqs[k] == eq_class_of(s, z);
                                assert(class_among(s, ps, eqs[k], false));
                                let x = choose|x: Id|
                                    ps.contains(x) && s.formulae[x as int] is Eq && eq_class_of(
                                        s,
                                        x,
                                    ) == eqs[k];
                                lemma_interning(s, x, z);
                            }
                            if equivalences && member_eqv_class(s, ps, z) {
                                let k = choose|k: int|
                                    0 <= k < eqvs.len() && #[trigger] eqvs[k] == eqv_class_of(s, z);
                                assert(class_among(s, ps, eqvs[k], true));
                                let x = choose|x: Id|
                                    ps.contains(x) && s.formulae[x as int] is Eqv && eqv_class_of(
                                        s,
                                        x,
                                    ) == eqvs[k];
                                lemma_interning(s, x, z);
                            }
                            if ps.contains(z) {
                                lemma_class_listed(s, ps, z);
                            }
                        }
                        lemma_ascending_unique(qs, ps);
                        lemma_interning(s, f, r);
                    }
                },
                _ => {},
            }
        },
        _ => {},
    }
}

/// A formula is that of one of `classes` exactly if it is an equation (or,
/// with `equivalences`, an equivalence class) whose members are one of them.
pub proof fn lemma_one_of(s: StoreView, z: Id, classes: Seq<Seq<Id>>, equivalences: bool)
    ensures
        is_one_of(s, z, classes, equivalences) <==> (z < s.formulae.len() && if equivalences {
            s.formulae[z as int] is Eqv && exists|k: int|
                0 <= k < classes.len() && #[trigger] classes[k] == eqv_class_of(s, z)
        } else {
            s.formulae[z as int] is Eq && exists|k: int|
                0 <= k < classes.len() && #[trigger] classes[k] == eq_class_of(s, z)
        }),
{
    if is_one_of(s, z, classes, equivalences) {
        let k = choose|k: int|
            0 <= k < classes.len() && is_class(s, z, #[trigger] classes[k], equivalences);
        if equivalences {
            assert(classes[k] == eqv_class_of(s, z));
        } else {
            assert(classes[k] == eq_class_of(s, z));
        }
    }
    if z < s.formulae.len() {
        if equivalences {
            if s.formulae[z as int] is Eqv && exists|k: int|
                0 <= k < classes.len() && #[trigger] classes[k] == eqv_class_of(s, z) {
                let k = choose|k: int|
                    0 <= k < classes.len() && #[trigger] classes[k] == eqv_class_of(s, z);
                assert(is_class(s, z, classes[k], equivalences));
            }
        } else {
            if s.formulae[z as int] is Eq && exists|k: int|
                0 <= k < classes.len() && #[trigger] classes[k] == eq_class_of(s, z) {
                let k = choose|k: int|
                    0 <= k < classes.len() && #[trigger] classes[k] == eq_class_of(s, z);
                assert(is_class(s, z, classes[k], equivalences));
            }
        }
    }
}

} // verus!
