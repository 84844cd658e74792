//! Merging the equations, and the equivalence classes, of a conjunction.
//!
//! Two equations that share a term say together that all their terms are
//! equal, so a conjunction can hold one equation in their place. The same
//! goes for two equivalence classes that share a member.

use crate::collections::{ascending, class_views, combined, lemma_combined_members, Id, IdSet};
use crate::formula::{Formula, FormulaView};
use crate::simplification::propositional::is_and;
use crate::store::{lemma_interning, Store, StoreView};
use vstd::prelude::*;

verus! {

/// The classes of the equations among `ps`, in the order of `ps`.
pub open spec fn eq_classes(s: StoreView, ps: Seq<Id>) -> Seq<Seq<Id>>
    decreases ps.len(),
{
    if ps.len() == 0 {
        Seq::empty()
    } else {
        let rest = eq_classes(s, ps.drop_last());
        match s.formulae[ps.last() as int] {
            FormulaView::Eq(ts) => rest.push(ts),
            _ => rest,
        }
    }
}

/// The equivalence classes among `ps`, in the order of `ps`.
pub open spec fn eqv_classes(s: StoreView, ps: Seq<Id>) -> Seq<Seq<Id>>
    decreases ps.len(),
{
    if ps.len() == 0 {
        Seq::empty()
    } else {
        let rest = eqv_classes(s, ps.drop_last());
        match s.formulae[ps.last() as int] {
            FormulaView::Eqv(qs) => rest.push(qs),
            _ => rest,
        }
    }
}

/// The terms of the equation `x`.
pub open spec fn eq_class_of(s: StoreView, x: Id) -> Seq<Id> {
    match s.formulae[x as int] {
        FormulaView::Eq(ts) => ts,
        _ => Seq::empty(),
    }
}

/// The members of the equivalence class `x`.
pub open spec fn eqv_class_of(s: StoreView, x: Id) -> Seq<Id> {
    match s.formulae[x as int] {
        FormulaView::Eqv(qs) => qs,
        _ => Seq::empty(),
    }
}

/// Whether `z` is a member of `ps` that is not merged: no equation and,
/// where equivalence classes are merged too, no equivalence class.
pub open spec fn member_kept(s: StoreView, ps: Seq<Id>, z: Id, equivalences: bool) -> bool {
    ps.contains(z) && !(s.formulae[z as int] is Eq) && !(equivalences && s.formulae[z as int] is Eqv)
}

/// Whether `z` is the equation of one of the merged classes of equations.
pub open spec fn member_eq_class(s: StoreView, ps: Seq<Id>, z: Id) -> bool {
    z < s.formulae.len() && match s.formulae[z as int] {
        FormulaView::Eq(ts) => exists|k: int|
            0 <= k < combined(eq_classes(s, ps)).len() && #[trigger] combined(
                eq_classes(s, ps),
            )[k] == ts,
        _ => false,
    }
}

/// Whether `z` is one of the merged equivalence classes.
pub open spec fn member_eqv_class(s: StoreView, ps: Seq<Id>, z: Id) -> bool {
    z < s.formulae.len() && match s.formulae[z as int] {
        FormulaView::Eqv(qs) => exists|k: int|
            0 <= k < combined(eqv_classes(s, ps)).len() && #[trigger] combined(
                eqv_classes(s, ps),
            )[k] == qs,
        _ => false,
    }
}

/// Whether `z` is a member of the conjunction that merging makes of `ps`.
pub open spec fn member_combined(s: StoreView, ps: Seq<Id>, z: Id, equivalences: bool) -> bool {
    ||| member_kept(s, ps, z, equivalences)
    ||| member_eq_class(s, ps, z)
    ||| equivalences && member_eqv_class(s, ps, z)
}

/// What merging makes of `f`.
///
/// In a conjunction, the equations are merged class by class: each is taken
/// into the first class before it that it shares a term with. So are, with
/// `equivalences`, the equivalence classes. The other members stay. Every
/// formula that is no conjunction stays as it is.
pub open spec fn classes_combined(s: StoreView, f: Id, r: Id, equivalences: bool) -> bool {
    match s.formulae[f as int] {
        FormulaView::And(ps) => is_and(s, r, |z: Id| member_combined(s, ps, z, equivalences)),
        _ => r == f,
    }
}

/// The classes among `ps` do not change when the store grows.
pub proof fn lemma_classes_kept(old: StoreView, new: StoreView, ps: Seq<Id>)
    requires
        new.extends(old),
        forall|i: int| 0 <= i < ps.len() ==> ps[i] < old.formulae.len(),
    ensures
        eq_classes(new, ps) == eq_classes(old, ps),
        eqv_classes(new, ps) == eqv_classes(old, ps),
    decreases ps.len(),
{
    if ps.len() > 0 {
        let front = ps.drop_last();
        assert forall|i: int| 0 <= i < front.len() implies front[i] < old.formulae.len() by {
            assert(front[i] == ps[i]);
        }
        lemma_classes_kept(old, new, front);
        assert(ps.last() == ps[ps.len() - 1]);
    }
}

/// The classes among the first `i + 1` members are those among the first
/// `i`, and that of the member at `i` if it is one.
pub proof fn lemma_classes_step(s: StoreView, ps: Seq<Id>, i: int)
    requires
        0 <= i < ps.len(),
    ensures
        eq_classes(s, ps.subrange(0, i + 1)) == (match s.formulae[ps[i] as int] {
            FormulaView::Eq(ts) => eq_classes(s, ps.subrange(0, i)).push(ts),
            _ => eq_classes(s, ps.subrange(0, i)),
        }),
        eqv_classes(s, ps.subrange(0, i + 1)) == (match s.formulae[ps[i] as int] {
            FormulaView::Eqv(qs) => eqv_classes(s, ps.subrange(0, i)).push(qs),
            _ => eqv_classes(s, ps.subrange(0, i)),
        }),
{
    assert(ps.subrange(0, i + 1).drop_last() =~= ps.subrange(0, i));
    assert(ps.subrange(0, i + 1).last() == ps[i]);
}

/// Whether `class` is the class of an equation (or, with `equivalences`, of
/// an equivalence class) among `ps`.
pub open spec fn class_among(s: StoreView, ps: Seq<Id>, class: Seq<Id>, equivalences: bool) -> bool {
    exists|x: Id|
        ps.contains(x) && if equivalences {
            s.formulae[x as int] is Eqv && eqv_class_of(s, x) == class
        } else {
            s.formulae[x as int] is Eq && eq_class_of(s, x) == class
        }
}

/// Every class among `ps` is the class of a member of `ps`.
pub proof fn lemma_classes_from_members(s: StoreView, ps: Seq<Id>)
    ensures
        forall|k: int|
            0 <= k < eq_classes(s, ps).len() ==> class_among(
                s,
                ps,
                #[trigger] eq_classes(s, ps)[k],
                false,
            ),
        forall|k: int|
            0 <= k < eqv_classes(s, ps).len() ==> class_among(
                s,
                ps,
                #[trigger] eqv_classes(s, ps)[k],
                true,
            ),
    decreases ps.len(),
{
    if ps.len() > 0 {
        let front = ps.drop_last();
        let last = ps.last();
        lemma_classes_from_members(s, front);
        assert(ps.contains(last)) by {
            assert(ps[ps.len() - 1] == last);
        }
        assert forall|x: Id| front.contains(x) implies ps.contains(x) by {
            let i = choose|i: int| 0 <= i < front.len() && front[i] == x;
            assert(ps[i] == x);
        }
        assert forall|k: int| 0 <= k < eq_classes(s, ps).len() implies class_among(
            s,
            ps,
            #[trigger] eq_classes(s, ps)[k],
            false,
        ) by {
            if k < eq_classes(s, front).len() {
                assert(eq_classes(s, ps)[k] == eq_classes(s, front)[k]);
                assert(class_among(s, front, eq_classes(s, front)[k], false));
                let x = choose|x: Id|
                    front.contains(x) && s.formulae[x as int] is Eq && eq_class_of(s, x)
                        == eq_classes(s, front)[k];
                assert(ps.contains(x));
            } else {
                assert(s.formulae[last as int] is Eq);
                assert(eq_class_of(s, last) == eq_classes(s, ps)[k]);
            }
        }
        assert forall|k: int| 0 <= k < eqv_classes(s, ps).len() implies class_among(
            s,
            ps,
            #[trigger] eqv_classes(s, ps)[k],
            true,
        ) by {
            if k < eqv_classes(s, front).len() {
                assert(eqv_classes(s, ps)[k] == eqv_classes(s, front)[k]);
                assert(class_among(s, front, eqv_classes(s, front)[k], true));
                let x = choose|x: Id|
                    front.contains(x) && s.formulae[x as int] is Eqv && eqv_class_of(s, x)
                        == eqv_classes(s, front)[k];
                assert(ps.contains(x));
            } else {
                assert(s.formulae[last as int] is Eqv);
                assert(eqv_class_of(s, last) == eqv_classes(s, ps)[k]);
            }
        }
    }
}

/// The classes of the equations among `ps` (or, with `equivalences`, the
/// equivalence classes among them), and the members that are neither.
fn gather(store: &Store, ps: &IdSet, equivalences: bool) -> (classes: Vec<IdSet>)
    requires
        store.wf(),
        forall|i: int| 0 <= i < ps@.len() ==> ps@[i] < store@.formulae.len(),
    ensures
        forall|k: int| 0 <= k < classes@.len() ==> (#[trigger] classes@[k]).wf(),
        equivalences ==> class_views(classes@) == eqv_classes(store@, ps@),
        !equivalences ==> class_views(classes@) == eq_classes(store@, ps@),
{
    let n = ps.len();
    let mut classes: Vec<IdSet> = Vec::new();
    let mut i: usize = 0;
    proof {
        assert(class_views(classes@) =~= Seq::<Seq<Id>>::empty());
        assert(ps@.subrange(0, 0) =~= Seq::<Id>::empty());
    }
    while i < n
        invariant
            n == ps@.len(),
            i <= n,
            store.wf(),
            forall|i: int| 0 <= i < ps@.len() ==> ps@[i] < store@.formulae.len(),
            forall|k: int| 0 <= k < classes@.len() ==> (#[trigger] classes@[k]).wf(),
            equivalences ==> class_views(classes@) == eqv_classes(
                store@,
                ps@.subrange(0, i as int),
            ),
            !equivalences ==> class_views(classes@) == eq_classes(
                store@,
                ps@.subrange(0, i as int),
            ),
        decreases n - i,
    {
        let x = ps.at(i);
        let ghost before = class_views(classes@);
        proof {
            lemma_classes_step(store@, ps@, i as int);
            assert(store@.formula_ok(store@.formulae[x as int], x as int));
        }
        match store.formula(x) {
            Formula::Eq(ts) => {
                if !equivalences {
                    classes.push(ts.clone());
                    proof {
                        assert(class_views(classes@) =~= before.push(ts@));
                    }
                }
            },
            Formula::Eqv(qs) => {
                if equivalences {
                    classes.push(qs.clone());
                    proof {
                        assert(class_views(classes@) =~= before.push(qs@));
                    }
                }
            },
            _ => {},
        }
        i += 1;
    }
    proof {
        assert(ps@.subrange(0, n as int) =~= ps@);
    }
    classes
}

/// The members of `ps` that are not merged.
fn kept(store: &Store, ps: &IdSet, equivalences: bool) -> (qs: IdSet)
    requires
        ps.wf(),
        forall|i: int| 0 <= i < ps@.len() ==> ps@[i] < store@.formulae.len(),
    ensures
        qs.wf(),
        forall|z: Id| qs@.contains(z) <==> member_kept(store@, ps@, z, equivalences),
{
    let n = ps.len();
    let mut qs = IdSet::empty();
    let mut i: usize = 0;
    while i < n
        invariant
            n == ps@.len(),
            i <= n,
            ps.wf(),
            qs.wf(),
            forall|i: int| 0 <= i < ps@.len() ==> ps@[i] < store@.formulae.len(),
            forall|z: Id|
                qs@.contains(z) <==> member_kept(
                    store@,
                    ps@.subrange(0, i as int),
                    z,
                    equivalences,
                ),
        decreases n - i,
    {
        let x = ps.at(i);
        proof {
            crate::collections::lemma_prefix_contains(ps@, i as int);
        }
        let merged = match store.formula(x) {
            Formula::Eq(_) => true,
            Formula::Eqv(_) => equivalences,
            _ => false,
        };
        if !merged {
            qs = qs.with(x);
        }
        i += 1;
    }
    proof {
        assert(ps@.subrange(0, n as int) =~= ps@);
    }
    qs
}

/// Whether the members of `out` are those of `qs` and of `made`.
spec fn holds_both(out: Seq<Id>, qs: Seq<Id>, made: Seq<Id>) -> bool {
    forall|z: Id| out.contains(z) <==> (qs.contains(z) || made.contains(z))
}

/// Adds to `qs` the equation (or, with `equivalences`, the equivalence
/// class) of each of `classes`.
fn with_classes(store: &mut Store, qs: &IdSet, classes: &Vec<IdSet>, equivalences: bool) -> (out:
    IdSet)
    requires
        old(store).wf(),
        qs.wf(),
        forall|k: int| 0 <= k < classes@.len() ==> (#[trigger] classes@[k]).wf(),
        forall|k: int, x: Id|
            0 <= k < classes@.len() && #[trigger] classes@[k]@.contains(x) ==> x < (if equivalences {
                old(store)@.formulae.len()
            } else {
                old(store)@.terms.len()
            }),
        forall|z: Id| qs@.contains(z) ==> z < old(store)@.formulae.len(),
    ensures
        final(store).wf(),
        final(store)@.extends(old(store)@),
        out.wf(),
        forall|z: Id| out@.contains(z) ==> z < final(store)@.formulae.len(),
        forall|k: int|
            0 <= k < classes@.len() ==> final(store)@.has_formula(
                if equivalences {
                    FormulaView::Eqv(#[trigger] classes@[k]@)
                } else {
                    FormulaView::Eq(classes@[k]@)
                },
            ),
        forall|z: Id|
            out@.contains(z) <==> (qs@.contains(z) || exists|k: int|
                0 <= k < classes@.len() && final(store)@.is(
                    z,
                    if equivalences {
                        FormulaView::Eqv(#[trigger] classes@[k]@)
                    } else {
                        FormulaView::Eq(classes@[k]@)
                    },
                )),
{
    let n = classes.len();
    let mut out = qs.clone();
    let mut i: usize = 0;
    let ghost mut made: Seq<Id> = Seq::empty();
    while i < n
        invariant
            n == classes@.len(),
            i <= n,
            store.wf(),
            store@.extends(old(store)@),
            out.wf(),
            made.len() == i,
            forall|k: int| 0 <= k < classes@.len() ==> (#[trigger] classes@[k]).wf(),
            forall|k: int, x: Id|
                0 <= k < classes@.len() && #[trigger] classes@[k]@.contains(x) ==> x < (
                if equivalences {
                    old(store)@.formulae.len()
                } else {
                    old(store)@.terms.len()
                }),
            forall|z: Id| out@.contains(z) ==> z < store@.formulae.len(),
            forall|k: int|
                0 <= k < i ==> store@.is(
                    #[trigger] made[k],
                    if equivalences {
                        FormulaView::Eqv(classes@[k]@)
                    } else {
                        FormulaView::Eq(classes@[k]@)
                    },
                ),
            holds_both(out@, qs@, made),
        decreases n - i,
    {
        let class = classes[i].clone();
        let ghost before = store@;
        proof {
            assert(classes@[i as int].wf());
            assert forall|j: int| 0 <= j < class@.len() implies class@[j] < (if equivalences {
                before.formulae.len()
            } else {
                before.terms.len()
            }) by {
                assert(classes@[i as int]@.contains(class@[j]));
            }
        }
        let id = if equivalences {
            store.intern(Formula::Eqv(class))
        } else {
            store.intern(Formula::Eq(class))
        };
        let ghost sofar = out@;
        let ghost earlier = made;
        out = out.with(id);
        proof {
            made = earlier.push(id);
            assert(holds_both(sofar, qs@, earlier));
            assert forall|z: Id| out@.contains(z) <==> (qs@.contains(z) || made.contains(z)) by {
                crate::collections::lemma_push_contains(earlier, id);
                assert(earlier.push(id).contains(z) <==> (earlier.contains(z) || z == id));
                assert(out@.contains(z) <==> (sofar.contains(z) || z == id));
                assert(sofar.contains(z) <==> (qs@.contains(z) || earlier.contains(z)));
                assert(made.contains(z) <==> (earlier.contains(z) || z == id));
            }
            assert(holds_both(out@, qs@, made));
            assert forall|k: int| 0 <= k < i + 1 implies store@.is(
                #[trigger] made[k],
                if equivalences {
                    FormulaView::Eqv(classes@[k]@)
                } else {
                    FormulaView::Eq(classes@[k]@)
                },
            ) by {
                if k < i {
                    assert(before.is(
                        earlier[k],
                        if equivalences {
                            FormulaView::Eqv(classes@[k]@)
                        } else {
                            FormulaView::Eq(classes@[k]@)
                        },
                    ));
                }
            }
        }
        i += 1;
    }
    proof {
        let s = store@;
        assert(holds_both(out@, qs@, made));
        assert forall|k: int| 0 <= k < classes@.len() implies s.has_formula(
            if equivalences {
                FormulaView::Eqv(#[trigger] classes@[k]@)
            } else {
                FormulaView::Eq(classes@[k]@)
            },
        ) by {
            assert(s.is(
                made[k],
                if equivalences {
                    FormulaView::Eqv(classes@[k]@)
                } else {
                    FormulaView::Eq(classes@[k]@)
                },
            ));
        }
        assert forall|z: Id|
            out@.contains(z) <==> (qs@.contains(z) || exists|k: int|
                0 <= k < classes@.len() && s.is(
                    z,
                    if equivalences {
                        FormulaView::Eqv(#[trigger] classes@[k]@)
                    } else {
                        FormulaView::Eq(classes@[k]@)
                    },
                )) by {
            if made.contains(z) {
                let k = choose|k: int| 0 <= k < made.len() && made[k] == z;
                assert(s.is(
                    made[k],
                    if equivalences {
                        FormulaView::Eqv(classes@[k]@)
                    } else {
                        FormulaView::Eq(classes@[k]@)
                    },
                ));
            }
            if exists|k: int|
                0 <= k < classes@.len() && s.is(
                    z,
                    if equivalences {
                        FormulaView::Eqv(#[trigger] classes@[k]@)
                    } else {
                        FormulaView::Eq(classes@[k]@)
                    },
                ) {
                let k = choose|k: int|
                    0 <= k < classes@.len() && s.is(
                        z,
                        if equivalences {
                            FormulaView::Eqv(#[trigger] classes@[k]@)
                        } else {
                            FormulaView::Eq(classes@[k]@)
                        },
                    );
                assert(s.is(
                    made[k],
                    if equivalences {
                        FormulaView::Eqv(classes@[k]@)
                    } else {
                        FormulaView::Eq(classes@[k]@)
                    },
                ));
                lemma_interning(s, z, made[k]);
                assert(made.contains(z));
            }
        }
    }
    out
}

/// Whether `z` is the equation (or, with `equivalences`, the equivalence
/// class) of one of `classes`.
pub open spec fn names_class(s: StoreView, classes: Seq<IdSet>, z: Id, equivalences: bool) -> bool {
    exists|k: int|
        0 <= k < classes.len() && s.is(
            z,
            if equivalences {
                FormulaView::Eqv(#[trigger] classes[k]@)
            } else {
                FormulaView::Eq(classes[k]@)
            },
        )
}

/// A formula names one of the merged classes exactly if it is the equation,
/// or the equivalence class, of one of them.
pub proof fn lemma_names_class(
    s: StoreView,
    classes: Seq<IdSet>,
    merged: Seq<Seq<Id>>,
    z: Id,
    equivalences: bool,
)
    requires
        class_views(classes) == merged,
    ensures
        names_class(s, classes, z, equivalences) <==> (z < s.formulae.len() && (
        match s.formulae[z as int] {
            FormulaView::Eq(ts) => !equivalences && exists|k: int|
                0 <= k < merged.len() && #[trigger] merged[k] == ts,
            FormulaView::Eqv(qs) => equivalences && exists|k: int|
                0 <= k < merged.len() && #[trigger] merged[k] == qs,
            _ => false,
        })),
{
    if names_class(s, classes, z, equivalences) {
        let k = choose|k: int|
            0 <= k < classes.len() && s.is(
                z,
                if equivalences {
                    FormulaView::Eqv(#[trigger] classes[k]@)
                } else {
                    FormulaView::Eq(classes[k]@)
                },
            );
        assert(merged[k] == classes[k]@);
    }
    if z < s.formulae.len() {
        match s.formulae[z as int] {
            FormulaView::Eq(ts) => {
                if !equivalences && exists|k: int|
                    0 <= k < merged.len() && #[trigger] merged[k] == ts {
                    let k = choose|k: int| 0 <= k < merged.len() && #[trigger] merged[k] == ts;
                    assert(merged[k] == classes[k]@);
                    assert(s.is(z, FormulaView::Eq(classes[k]@)));
                }
            },
            FormulaView::Eqv(qs) => {
                if equivalences && exists|k: int|
                    0 <= k < merged.len() && #[trigger] merged[k] == qs {
                    let k = choose|k: int| 0 <= k < merged.len() && #[trigger] merged[k] == qs;
                    assert(merged[k] == classes[k]@);
                    assert(s.is(z, FormulaView::Eqv(classes[k]@)));
                }
            },
            _ => {},
        }
    }
}

/// Whether a formula names one of the classes does not change when a store
/// that holds them all grows.
pub proof fn lemma_names_class_kept(
    old: StoreView,
    new: StoreView,
    classes: Seq<IdSet>,
    z: Id,
    equivalences: bool,
)
    requires
        new.wf(),
        new.extends(old),
        forall|k: int|
            0 <= k < classes.len() ==> old.has_formula(
                if equivalences {
                    FormulaView::Eqv(#[trigger] classes[k]@)
                } else {
                    FormulaView::Eq(classes[k]@)
                },
            ),
    ensures
        names_class(new, classes, z, equivalences) == names_class(old, classes, z, equivalences),
{
    if names_class(new, classes, z, equivalences) {
        let k = choose|k: int|
            0 <= k < classes.len() && new.is(
                z,
                if equivalences {
                    FormulaView::Eqv(#[trigger] classes[k]@)
                } else {
                    FormulaView::Eq(classes[k]@)
                },
            );
        let shape = if equivalences {
            FormulaView::Eqv(classes[k]@)
        } else {
            FormulaView::Eq(classes[k]@)
        };
        assert(old.has_formula(shape));
        let i = choose|i: int| 0 <= i < old.formulae.len() && old.formulae[i] == shape;
        lemma_interning(new, z, i as Id);
        assert(old.is(z, shape));
    }
    if names_class(old, classes, z, equivalences) {
        let k = choose|k: int|
            0 <= k < classes.len() && old.is(
                z,
                if equivalences {
                    FormulaView::Eqv(#[trigger] classes[k]@)
                } else {
                    FormulaView::Eq(classes[k]@)
                },
            );
        assert(new.is(
            z,
            if equivalences {
                FormulaView::Eqv(classes[k]@)
            } else {
                FormulaView::Eq(classes[k]@)
            },
        ));
    }
}

/// The classes among the members of a stored connective are ascending.
pub proof fn lemma_classes_ascending(s: StoreView, ps: Seq<Id>)
    requires
        s.wf(),
        forall|i: int| 0 <= i < ps.len() ==> ps[i] < s.formulae.len(),
    ensures
        forall|k: int| 0 <= k < eq_classes(s, ps).len() ==> ascending(#[trigger] eq_classes(s, ps)[k]),
        forall|k: int|
            0 <= k < eqv_classes(s, ps).len() ==> ascending(#[trigger] eqv_classes(s, ps)[k]),
{
    lemma_classes_from_members(s, ps);
    assert forall|k: int| 0 <= k < eq_classes(s, ps).len() implies ascending(
        #[trigger] eq_classes(s, ps)[k],
    ) by {
        assert(class_among(s, ps, eq_classes(s, ps)[k], false));
        let x = choose|x: Id|
            ps.contains(x) && s.formulae[x as int] is Eq && eq_class_of(s, x) == eq_classes(
                s,
                ps,
            )[k];
        let j = choose|j: int| 0 <= j < ps.len() && ps[j] == x;
        assert(s.formula_ok(s.formulae[x as int], x as int));
    }
    assert forall|k: int| 0 <= k < eqv_classes(s, ps).len() implies ascending(
        #[trigger] eqv_classes(s, ps)[k],
    ) by {
        assert(class_among(s, ps, eqv_classes(s, ps)[k], true));
        let x = choose|x: Id|
            ps.contains(x) && s.formulae[x as int] is Eqv && eqv_class_of(s, x) == eqv_classes(
                s,
                ps,
            )[k];
        let j = choose|j: int| 0 <= j < ps.len() && ps[j] == x;
        assert(s.formula_ok(s.formulae[x as int], x as int));
    }
}

/// The members of the merged classes of a well-formed conjunction are terms
/// of the store, or formulae below the conjunction.
pub proof fn lemma_merged_members(s: StoreView, f: Id, ps: Seq<Id>)
    requires
        s.wf(),
        s.is(f, FormulaView::And(ps)),
    ensures
        forall|k: int, x: Id|
            0 <= k < combined(eq_classes(s, ps)).len() && #[trigger] combined(
                eq_classes(s, ps),
            )[k].contains(x) ==> x < s.terms.len(),
        forall|k: int, x: Id|
            0 <= k < combined(eqv_classes(s, ps)).len() && #[trigger] combined(
                eqv_classes(s, ps),
            )[k].contains(x) ==> x < f,
{
    assert(s.formula_ok(s.formulae[f as int], f as int));
    lemma_classes_from_members(s, ps);
    lemma_classes_ascending(s, ps);
    lemma_combined_members(eq_classes(s, ps));
    lemma_combined_members(eqv_classes(s, ps));
    assert forall|k: int, x: Id|
        0 <= k < combined(eq_classes(s, ps)).len() && #[trigger] combined(
            eq_classes(s, ps),
        )[k].contains(x) implies x < s.terms.len() by {
        let i = choose|i: int|
            0 <= i < eq_classes(s, ps).len() && #[trigger] eq_classes(s, ps)[i].contains(x);
        assert(class_among(s, ps, eq_classes(s, ps)[i], false));
        let y = choose|y: Id|
            ps.contains(y) && s.formulae[y as int] is Eq && eq_class_of(s, y) == eq_classes(
                s,
                ps,
            )[i];
        let j = choose|j: int| 0 <= j < ps.len() && ps[j] == y;
        assert(s.formula_ok(s.formulae[y as int], y as int));
        match s.formulae[y as int] {
            FormulaView::Eq(ts) => {
                assert(ts.contains(x));
                let m = choose|m: int| 0 <= m < ts.len() && ts[m] == x;
            },
            _ => {},
        }
    }
    assert forall|k: int, x: Id|
        0 <= k < combined(eqv_classes(s, ps)).len() && #[trigger] combined(
            eqv_classes(s, ps),
        )[k].contains(x) implies x < f by {
        let i = choose|i: int|
            0 <= i < eqv_classes(s, ps).len() && #[trigger] eqv_classes(s, ps)[i].contains(x);
        assert(class_among(s, ps, eqv_classes(s, ps)[i], true));
        let y = choose|y: Id|
            ps.contains(y) && s.formulae[y as int] is Eqv && eqv_class_of(s, y) == eqv_classes(
                s,
                ps,
            )[i];
        let j = choose|j: int| 0 <= j < ps.len() && ps[j] == y;
        assert(s.formula_ok(s.formulae[y as int], y as int));
        match s.formulae[y as int] {
            FormulaView::Eqv(qs) => {
                assert(qs.contains(x));
                let m = choose|m: int| 0 <= m < qs.len() && qs[m] == x;
            },
            _ => {},
        }
    }
}

/// Merges the equations of a conjunction that share terms and, with
/// `equivalences`, its equivalence classes that share members.
pub fn combine_classes(store: &mut Store, f: Id, equivalences: bool) -> (r: Id)
    requires
        old(store).wf(),
        f < old(store)@.formulae.len(),
    ensures
        final(store).wf(),
        final(store)@.extends(old(store)@),
        r < final(store)@.formulae.len(),
        classes_combined(final(store)@, f, r, equivalences),
        equivalences ==> crate::simplification::sound::classes_present(final(store)@, f),
{
    let ghost before = store@;
    proof {
        assert(before.formula_ok(before.formulae[f as int], f as int));
    }
    match store.formula(f) {
        Formula::And(ps) => {
            let ps = ps.clone();
            proof {
                lemma_merged_members(before, f, ps@);
            }
            let eqs = gather(store, &ps, false);
            let eqvs = gather(store, &ps, true);
            let merged_eqs = IdSet::combine_overlapping(&eqs);
            let merged_eqvs = IdSet::combine_overlapping(&eqvs);
            let rest = kept(store, &ps, equivalences);
            proof {
                assert forall|k: int, x: Id|
                    0 <= k < merged_eqs@.len() && #[trigger] merged_eqs@[k]@.contains(
                        x,
                    ) implies x < before.terms.len() by {
                    assert(class_views(merged_eqs@)[k].contains(x));
                }
                assert forall|k: int, x: Id|
                    0 <= k < merged_eqvs@.len() && #[trigger] merged_eqvs@[k]@.contains(
                        x,
                    ) implies x < before.formulae.len() by {
                    assert(class_views(merged_eqvs@)[k].contains(x));
                }
                assert forall|z: Id| rest@.contains(z) implies z < before.formulae.len() by {
                    let j = choose|j: int| 0 <= j < ps@.len() && ps@[j] == z;
                }
            }
            let with_eqs = with_classes(store, &rest, &merged_eqs, false);
            let ghost middle = store@;
            let qs = if equivalences {
                with_classes(store, &with_eqs, &merged_eqvs, true)
            } else {
                with_eqs
            };
            let ghost built = store@;
            proof {
                assert forall|i: int| 0 <= i < qs@.len() implies qs@[i] < built.formulae.len() by {
                    assert(qs@.contains(qs@[i]));
                }
            }
            let r = store.intern(Formula::And(qs));
            let count = store.formula_count();
            proof {
                let s = store@;
                lemma_classes_kept(before, s, ps@);
                if equivalences {
                    let merged = combined(eqv_classes(s, ps@));
                    assert(merged == class_views(merged_eqvs@));
                    assert forall|k: int|
                        0 <= k < merged.len() implies crate::simplification::sound::class_present(
                        s,
                        #[trigger] merged[k],
                    ) by {
                        assert(merged[k] == merged_eqvs@[k]@);
                        assert(built.has_formula(FormulaView::Eqv(merged_eqvs@[k]@)));
                        let i = choose|i: int|
                            0 <= i < built.formulae.len() && built.formulae[i]
                                == FormulaView::Eqv(merged_eqvs@[k]@);
                        let e = i as Id;
                        assert(s.formulae[i] == built.formulae[i]);
                        assert(s.is(e, FormulaView::Eqv(merged[k])));
                    }
                    assert(s.formulae[f as int] == FormulaView::And(ps@));
                    assert(crate::simplification::sound::classes_present(s, f));
                }
                assert forall|z: Id| qs@.contains(z) <==> member_combined(
                    s,
                    ps@,
                    z,
                    equivalences,
                ) by {
                    lemma_names_class(
                        middle,
                        merged_eqs@,
                        combined(eq_classes(before, ps@)),
                        z,
                        false,
                    );
                    lemma_names_class(s, merged_eqs@, combined(eq_classes(before, ps@)), z, false);
                    lemma_names_class_kept(middle, s, merged_eqs@, z, false);
                    if equivalences {
                        lemma_names_class(
                            built,
                            merged_eqvs@,
                            combined(eqv_classes(before, ps@)),
                            z,
                            true,
                        );
                        lemma_names_class(
                            s,
                            merged_eqvs@,
                            combined(eqv_classes(before, ps@)),
                            z,
                            true,
                        );
                        lemma_names_class_kept(built, s, merged_eqvs@, z, true);
                    }
                    if ps@.contains(z) {
                        let j = choose|j: int| 0 <= j < ps@.len() && ps@[j] == z;
                        assert(s.formulae[z as int] == before.formulae[z as int]);
                    }
                    assert(rest@.contains(z) <==> member_kept(s, ps@, z, equivalences));
                    assert(with_eqs@.contains(z) <==> (rest@.contains(z) || names_class(
                        middle,
                        merged_eqs@,
                        z,
                        false,
                    )));
                    assert(names_class(s, merged_eqs@, z, false) <==> member_eq_class(s, ps@, z));
                    if equivalences {
                        assert(qs@.contains(z) <==> (with_eqs@.contains(z) || names_class(
                            built,
                            merged_eqvs@,
                            z,
                            true,
                        )));
                        assert(names_class(s, merged_eqvs@, z, true) <==> member_eqv_class(
                            s,
                            ps@,
                            z,
                        ));
                    }
                }
            }
            r
        },
        _ => f,
    }
}

} // verus!
