//! The propositional rewrites of the simplifier.
//!
//! Each rewrite looks at the connective at the top of a formula and at the
//! formulae directly below it, and gives back the formula unchanged or a
//! lighter one.

use crate::collections::{ascending, Id, IdSet};
use crate::formula::{Formula, FormulaView};
use crate::store::{Store, StoreView};
use vstd::prelude::*;

verus! {

/// Whether `qs` holds, in ascending order, exactly what `member` accepts.
pub open spec fn members_are(qs: Seq<Id>, member: spec_fn(Id) -> bool) -> bool {
    ascending(qs) && forall|x: Id| qs.contains(x) <==> member(x)
}

/// Whether one of `ps` is the constant `T`.
pub open spec fn has_true(s: StoreView, ps: Seq<Id>) -> bool {
    exists|x: Id| ps.contains(x) && s.is(x, FormulaView::T)
}

/// Whether one of `ps` is the constant `F`.
pub open spec fn has_false(s: StoreView, ps: Seq<Id>) -> bool {
    exists|x: Id| ps.contains(x) && s.is(x, FormulaView::F)
}

/// Whether `x` is a member of `ps` other than the constant `T`.
pub open spec fn member_not_true(s: StoreView, ps: Seq<Id>, x: Id) -> bool {
    ps.contains(x) && !s.is(x, FormulaView::T)
}

/// Whether `x` is a member of `ps` other than the constant `F`.
pub open spec fn member_not_false(s: StoreView, ps: Seq<Id>, x: Id) -> bool {
    ps.contains(x) && !s.is(x, FormulaView::F)
}

/// Whether `y` is the negation of a member of `ps`.
pub open spec fn member_negated(s: StoreView, ps: Seq<Id>, y: Id) -> bool {
    exists|x: Id| ps.contains(x) && s.is(y, FormulaView::Not(x))
}

/// Whether the store holds the negation of `x`.
pub open spec fn has_negation(s: StoreView, x: Id) -> bool {
    exists|y: Id| s.is(y, FormulaView::Not(x))
}

/// The members of `ps` other than the constant `T`.
pub open spec fn not_true(s: StoreView, ps: Seq<Id>) -> spec_fn(Id) -> bool {
    |x: Id| member_not_true(s, ps, x)
}

/// The members of `ps` other than the constant `F`.
pub open spec fn not_false(s: StoreView, ps: Seq<Id>) -> spec_fn(Id) -> bool {
    |x: Id| member_not_false(s, ps, x)
}

/// The negations of the members of `ps`.
pub open spec fn negated(s: StoreView, ps: Seq<Id>) -> spec_fn(Id) -> bool {
    |y: Id| member_negated(s, ps, y)
}

/// Whether `r` is a conjunction whose members are what `member` accepts.
pub open spec fn is_and(s: StoreView, r: Id, member: spec_fn(Id) -> bool) -> bool {
    r < s.formulae.len() && match s.formulae[r as int] {
        FormulaView::And(qs) => members_are(qs, member),
        _ => false,
    }
}

/// Whether `r` is a disjunction whose members are what `member` accepts.
pub open spec fn is_or(s: StoreView, r: Id, member: spec_fn(Id) -> bool) -> bool {
    r < s.formulae.len() && match s.formulae[r as int] {
        FormulaView::Or(qs) => members_are(qs, member),
        _ => false,
    }
}

/// Whether `r` is an equivalence class whose members are what `member` accepts.
pub open spec fn is_eqv(s: StoreView, r: Id, member: spec_fn(Id) -> bool) -> bool {
    r < s.formulae.len() && match s.formulae[r as int] {
        FormulaView::Eqv(qs) => members_are(qs, member),
        _ => false,
    }
}

/// What boolean propagation makes of `f`: `r` is `f` with the constants
/// directly below its top connective taken out.
///
/// `¬T` is `F` and `¬F` is `T`. `T → q` is `q`, `F → q` and `p → T` are `T`,
/// and `p → F` is `¬p`. A conjunction with a member `F` is `F`, otherwise it
/// loses its members `T`; a disjunction with a member `T` is `T`, otherwise
/// it loses its members `F`. An equivalence class with a member `F` becomes
/// the conjunction of the negations of its members, otherwise it loses its
/// members `T`. Every other formula stays as it is.
pub open spec fn propagated(s: StoreView, f: Id, r: Id) -> bool {
    match s.formulae[f as int] {
        FormulaView::Not(p) => match s.formulae[p as int] {
            FormulaView::T => s.is(r, FormulaView::F),
            FormulaView::F => s.is(r, FormulaView::T),
            _ => r == f,
        },
        FormulaView::Imp(p, q) => if s.formulae[p as int] is T {
            r == q
        } else if s.formulae[p as int] is F {
            s.is(r, FormulaView::T)
        } else if s.formulae[q as int] is T {
            s.is(r, FormulaView::T)
        } else if s.formulae[q as int] is F {
            s.is(r, FormulaView::Not(p))
        } else {
            r == f
        },
        FormulaView::And(ps) => if has_false(s, ps) {
            s.is(r, FormulaView::F)
        } else {
            is_and(s, r, not_true(s, ps))
        },
        FormulaView::Or(ps) => if has_true(s, ps) {
            s.is(r, FormulaView::T)
        } else {
            is_or(s, r, not_false(s, ps))
        },
        FormulaView::Eqv(ps) => if has_false(s, ps) {
            is_and(s, r, negated(s, ps))
        } else {
            is_eqv(s, r, not_true(s, ps))
        },
        _ => r == f,
    }
}

/// Whether one of `ps` is the constant `F`.
fn any_false(store: &Store, ps: &IdSet) -> (found: bool)
    requires
        forall|i: int| 0 <= i < ps@.len() ==> ps@[i] < store@.formulae.len(),
    ensures
        found == has_false(store@, ps@),
{
    let n = ps.len();
    let mut i: usize = 0;
    while i < n
        invariant
            n == ps@.len(),
            i <= n,
            forall|i: int| 0 <= i < ps@.len() ==> ps@[i] < store@.formulae.len(),
            forall|j: int| 0 <= j < i ==> !store@.is(ps@[j], FormulaView::F),
        decreases n - i,
    {
        if store.formula(ps.at(i)).is_false() {
            proof {
                assert(ps@.contains(ps@[i as int]));
            }
            return true;
        }
        i += 1;
    }
    proof {
        if has_false(store@, ps@) {
            let x = choose|x: Id| ps@.contains(x) && store@.is(x, FormulaView::F);
            let k = choose|k: int| 0 <= k < ps@.len() && ps@[k] == x;
            assert(!store@.is(ps@[k], FormulaView::F));
        }
    }
    false
}

/// Whether one of `ps` is the constant `T`.
fn any_true(store: &Store, ps: &IdSet) -> (found: bool)
    requires
        forall|i: int| 0 <= i < ps@.len() ==> ps@[i] < store@.formulae.len(),
    ensures
        found == has_true(store@, ps@),
{
    let n = ps.len();
    let mut i: usize = 0;
    while i < n
        invariant
            n == ps@.len(),
            i <= n,
            forall|i: int| 0 <= i < ps@.len() ==> ps@[i] < store@.formulae.len(),
            forall|j: int| 0 <= j < i ==> !store@.is(ps@[j], FormulaView::T),
        decreases n - i,
    {
        if store.formula(ps.at(i)).is_true() {
            proof {
                assert(ps@.contains(ps@[i as int]));
            }
            return true;
        }
        i += 1;
    }
    proof {
        if has_true(store@, ps@) {
            let x = choose|x: Id| ps@.contains(x) && store@.is(x, FormulaView::T);
            let k = choose|k: int| 0 <= k < ps@.len() && ps@[k] == x;
            assert(!store@.is(ps@[k], FormulaView::T));
        }
    }
    false
}

/// The members of `ps` other than the constant `T` (or, with `falsity`, `F`).
fn without_constant(store: &Store, ps: &IdSet, falsity: bool) -> (qs: IdSet)
    requires
        ps.wf(),
        forall|i: int| 0 <= i < ps@.len() ==> ps@[i] < store@.formulae.len(),
    ensures
        qs.wf(),
        falsity ==> members_are(qs@, not_false(store@, ps@)),
        !falsity ==> members_are(qs@, not_true(store@, ps@)),
        forall|i: int| 0 <= i < qs@.len() ==> ps@.contains(qs@[i]),
{
    let n = ps.len();
    let mut qs = IdSet::empty();
    let mut i: usize = 0;
    while i < n
        invariant
            n == ps@.len(),
            i <= n,
            ps.wf(),
            qs.wf(),
            forall|i: int| 0 <= i < ps@.len() ==> ps@[i] < store@.formulae.len(),
            forall|x: Id|
                qs@.contains(x) <==> (ps@.subrange(0, i as int).contains(x) && if falsity {
                    !store@.is(x, FormulaView::F)
                } else {
                    !store@.is(x, FormulaView::T)
                }),
        decreases n - i,
    {
        let x = ps.at(i);
        let constant = if falsity {
            store.formula(x).is_false()
        } else {
            store.formula(x).is_true()
        };
        proof {
            crate::collections::lemma_prefix_contains(ps@, i as int);
        }
        if !constant {
            qs = qs.with(x);
        }
        i += 1;
    }
    proof {
        assert(ps@.subrange(0, n as int) =~= ps@);
        assert forall|i: int| 0 <= i < qs@.len() implies ps@.contains(qs@[i]) by {
            assert(qs@.contains(qs@[i]));
        }
    }
    qs
}

/// The negations of the members of `ps`.
pub fn negations(store: &mut Store, ps: &IdSet) -> (qs: IdSet)
    requires
        old(store).wf(),
        forall|i: int| 0 <= i < ps@.len() ==> ps@[i] < old(store)@.formulae.len(),
    ensures
        final(store).wf(),
        final(store)@.extends(old(store)@),
        members_are(qs@, negated(final(store)@, ps@)),
        forall|i: int| 0 <= i < qs@.len() ==> qs@[i] < final(store)@.formulae.len(),
        forall|x: Id| ps@.contains(x) ==> #[trigger] has_negation(final(store)@, x),
{
    let n = ps.len();
    let mut qs = IdSet::empty();
    let mut i: usize = 0;
    while i < n
        invariant
            n == ps@.len(),
            i <= n,
            store.wf(),
            store@.extends(old(store)@),
            qs.wf(),
            forall|i: int| 0 <= i < ps@.len() ==> ps@[i] < old(store)@.formulae.len(),
            forall|y: Id|
                qs@.contains(y) <==> member_negated(store@, ps@.subrange(0, i as int), y),
            forall|y: Id| qs@.contains(y) ==> y < store@.formulae.len(),
            forall|x: Id|
                ps@.subrange(0, i as int).contains(x) ==> #[trigger] has_negation(store@, x),
        decreases n - i,
    {
        let x = ps.at(i);
        let ghost before = store@;
        let ghost sofar = qs@;
        let ghost prefix = ps@.subrange(0, i as int);
        let ghost next = ps@.subrange(0, i + 1);
        let y = Formula::negate(store, x);
        qs = qs.with(y);
        proof {
            let after = store@;
            crate::collections::lemma_prefix_contains(ps@, i as int);
            assert(next[i as int] == x);
            assert(next.contains(x));
            assert forall|z: Id| qs@.contains(z) implies member_negated(after, next, z) by {
                if z == y {
                    assert(next.contains(x) && after.is(z, FormulaView::Not(x)));
                } else {
                    assert(sofar.contains(z));
                    assert(member_negated(before, prefix, z));
                    let w = choose|w: Id| prefix.contains(w) && before.is(z, FormulaView::Not(w));
                    assert(next.contains(w) && after.is(z, FormulaView::Not(w)));
                }
            }
            assert forall|z: Id| member_negated(after, next, z) implies qs@.contains(z) by {
                let w = choose|w: Id| next.contains(w) && after.is(z, FormulaView::Not(w));
                if w == x {
                    crate::store::lemma_interning(after, z, y);
                } else {
                    assert(prefix.contains(w));
                    if z < before.formulae.len() {
                        assert(prefix.contains(w) && before.is(z, FormulaView::Not(w)));
                        assert(member_negated(before, prefix, z));
                        assert(sofar.contains(z));
                    } else {
                        assert(z < after.formulae.len());
                        assert(z == y);
                    }
                }
            }
            assert forall|w: Id| next.contains(w) implies #[trigger] has_negation(after, w) by {
                if w == x {
                    assert(after.is(y, FormulaView::Not(x)));
                } else {
                    assert(has_negation(before, w));
                    let z = choose|z: Id| before.is(z, FormulaView::Not(w));
                    assert(after.is(z, FormulaView::Not(w)));
                }
            }
        }
        i += 1;
    }
    proof {
        assert(ps@.subrange(0, n as int) =~= ps@);
        assert forall|i: int| 0 <= i < qs@.len() implies qs@[i] < store@.formulae.len() by {
            assert(qs@.contains(qs@[i]));
        }
    }
    qs
}

/// Takes the constants directly below the top connective of `f` out.
pub fn boolean_propagation(store: &mut Store, f: Id) -> (r: Id)
    requires
        old(store).wf(),
        f < old(store)@.formulae.len(),
    ensures
        final(store).wf(),
        final(store)@.extends(old(store)@),
        r < final(store)@.formulae.len(),
        propagated(final(store)@, f, r),
        crate::simplification::sound::negations_present(final(store)@, f),
{
    let ghost before = store@;
    proof {
        assert(before.formula_ok(before.formulae[f as int], f as int));
    }
    match store.formula(f) {
        Formula::Not(p) => {
            let p = *p;
            if store.formula(p).is_true() {
                Formula::falsity(store)
            } else if store.formula(p).is_false() {
                Formula::truth(store)
            } else {
                f
            }
        },
        Formula::Imp(p, q) => {
            let p = *p;
            let q = *q;
            if store.formula(p).is_true() {
                q
            } else if store.formula(p).is_false() {
                Formula::truth(store)
            } else if store.formula(q).is_true() {
                Formula::truth(store)
            } else if store.formula(q).is_false() {
                Formula::negate(store, p)
            } else {
                f
            }
        },
        Formula::And(ps) => {
            let ps = ps.clone();
            if any_false(store, &ps) {
                let r = Formula::falsity(store);
                proof {
                    lemma_constants_kept(before, store@, ps@);
                }
                r
            } else {
                let qs = without_constant(store, &ps, false);
                let r = store.intern(Formula::And(qs));
                proof {
                    lemma_constants_kept(before, store@, ps@);
                }
                r
            }
        },
        Formula::Or(ps) => {
            let ps = ps.clone();
            if any_true(store, &ps) {
                let r = Formula::truth(store);
                proof {
                    lemma_constants_kept(before, store@, ps@);
                }
                r
            } else {
                let qs = without_constant(store, &ps, true);
                let r = store.intern(Formula::Or(qs));
                proof {
                    lemma_constants_kept(before, store@, ps@);
                }
                r
            }
        },
        Formula::Eqv(ps) => {
            let ps = ps.clone();
            if any_false(store, &ps) {
                let qs = negations(store, &ps);
                let ghost middle = store@;
                let r = store.intern(Formula::And(qs));
                proof {
                    lemma_constants_kept(before, store@, ps@);
                    lemma_negated_kept(middle, store@, ps@);
                    assert forall|z: Id| #[trigger] ps@.contains(z) implies exists|y: Id|
                        store@.is(y, FormulaView::Not(z)) by {
                        assert(has_negation(middle, z));
                        let y = choose|y: Id| middle.is(y, FormulaView::Not(z));
                        assert(store@.is(y, FormulaView::Not(z)));
                    }
                }
                r
            } else {
                let qs = without_constant(store, &ps, false);
                let r = store.intern(Formula::Eqv(qs));
                proof {
                    lemma_constants_kept(before, store@, ps@);
                }
                r
            }
        },
        _ => f,
    }
}

/// Which members are constants does not change when the store grows.
pub proof fn lemma_constants_kept(old: StoreView, new: StoreView, ps: Seq<Id>)
    requires
        new.extends(old),
        forall|i: int| 0 <= i < ps.len() ==> ps[i] < old.formulae.len(),
    ensures
        has_true(new, ps) == has_true(old, ps),
        has_false(new, ps) == has_false(old, ps),
        forall|x: Id| #[trigger] member_not_true(new, ps, x) == member_not_true(old, ps, x),
        forall|x: Id| #[trigger] member_not_false(new, ps, x) == member_not_false(old, ps, x),
        not_true(new, ps) == not_true(old, ps),
        not_false(new, ps) == not_false(old, ps),
{
    assert forall|x: Id| ps.contains(x) implies x < old.formulae.len() by {
        let k = choose|k: int| 0 <= k < ps.len() && ps[k] == x;
    }
    if has_true(old, ps) {
        let x = choose|x: Id| ps.contains(x) && old.is(x, FormulaView::T);
        assert(ps.contains(x) && new.is(x, FormulaView::T));
    }
    if has_true(new, ps) {
        let x = choose|x: Id| ps.contains(x) && new.is(x, FormulaView::T);
        assert(ps.contains(x) && old.is(x, FormulaView::T));
    }
    if has_false(old, ps) {
        let x = choose|x: Id| ps.contains(x) && old.is(x, FormulaView::F);
        assert(ps.contains(x) && new.is(x, FormulaView::F));
    }
    if has_false(new, ps) {
        let x = choose|x: Id| ps.contains(x) && new.is(x, FormulaView::F);
        assert(ps.contains(x) && old.is(x, FormulaView::F));
    }
    assert(not_true(new, ps) =~= not_true(old, ps));
    assert(not_false(new, ps) =~= not_false(old, ps));
}

/// Where a store holds the negation of every member, a store that extends
/// it holds no further negations of members.
pub proof fn lemma_negated_kept(old: StoreView, new: StoreView, ps: Seq<Id>)
    requires
        new.wf(),
        new.extends(old),
        forall|x: Id| ps.contains(x) ==> #[trigger] has_negation(old, x),
    ensures
        forall|y: Id| #[trigger] member_negated(new, ps, y) == member_negated(old, ps, y),
        negated(new, ps) == negated(old, ps),
{
    assert forall|y: Id| #[trigger]
        member_negated(new, ps, y) == member_negated(old, ps, y) by {
        if member_negated(new, ps, y) {
            let x = choose|x: Id| ps.contains(x) && new.is(y, FormulaView::Not(x));
            assert(has_negation(old, x));
            let z = choose|z: Id| old.is(z, FormulaView::Not(x));
            crate::store::lemma_interning(new, y, z);
            assert(ps.contains(x) && old.is(y, FormulaView::Not(x)));
        }
        if member_negated(old, ps, y) {
            let x = choose|x: Id| ps.contains(x) && old.is(y, FormulaView::Not(x));
            assert(ps.contains(x) && new.is(y, FormulaView::Not(x)));
        }
    }
    assert(negated(new, ps) =~= negated(old, ps));
}

/// Whether some member of `ps` is the negation of another member.
pub open spec fn has_complement(s: StoreView, ps: Seq<Id>) -> bool {
    exists|y: Id| ps.contains(y) && member_negated(s, ps, y)
}

/// What the search for contradictions makes of `f`.
///
/// An implication between a formula and its negation, in either direction,
/// is `F`. A conjunction or an equivalence class that holds a formula and its
/// negation is `F`; a disjunction that does is `T`. Every other formula stays
/// as it is.
pub open spec fn contradicted(s: StoreView, f: Id, r: Id) -> bool {
    match s.formulae[f as int] {
        FormulaView::Imp(p, q) => if s.is(p, FormulaView::Not(q)) || s.is(q, FormulaView::Not(p)) {
            s.is(r, FormulaView::F)
        } else {
            r == f
        },
        FormulaView::And(ps) => if has_complement(s, ps) {
            s.is(r, FormulaView::F)
        } else {
            r == f
        },
        FormulaView::Or(ps) => if has_complement(s, ps) {
            s.is(r, FormulaView::T)
        } else {
            r == f
        },
        FormulaView::Eqv(ps) => if has_complement(s, ps) {
            s.is(r, FormulaView::F)
        } else {
            r == f
        },
        _ => r == f,
    }
}

/// Whether `p` is the negation of `q`.
fn is_negation_of(store: &Store, p: Id, q: Id) -> (yes: bool)
    requires
        p < store@.formulae.len(),
    ensures
        yes == store@.is(p, FormulaView::Not(q)),
{
    match store.formula(p) {
        Formula::Not(x) => *x == q,
        _ => false,
    }
}

/// Whether some member of `ps` is the negation of another member.
fn any_complement(store: &Store, ps: &IdSet) -> (found: bool)
    requires
        forall|i: int| 0 <= i < ps@.len() ==> ps@[i] < store@.formulae.len(),
    ensures
        found == has_complement(store@, ps@),
{
    let n = ps.len();
    let mut i: usize = 0;
    while i < n
        invariant
            n == ps@.len(),
            i <= n,
            forall|i: int| 0 <= i < ps@.len() ==> ps@[i] < store@.formulae.len(),
            forall|j: int| 0 <= j < i ==> !member_negated(store@, ps@, #[trigger] ps@[j]),
        decreases n - i,
    {
        let y = ps.at(i);
        match store.formula(y) {
            Formula::Not(x) => {
                if ps.contains(*x) {
                    proof {
                        assert(ps@.contains(ps@[i as int]));
                        assert(ps@.contains(*x) && store@.is(y, FormulaView::Not(*x)));
                        assert(member_negated(store@, ps@, y));
                    }
                    return true;
                }
            },
            _ => {},
        }
        i += 1;
    }
    proof {
        if has_complement(store@, ps@) {
            let y = choose|y: Id| ps@.contains(y) && member_negated(store@, ps@, y);
            let k = choose|k: int| 0 <= k < ps@.len() && ps@[k] == y;
            assert(!member_negated(store@, ps@, ps@[k]));
        }
    }
    false
}

/// Replaces a formula that contradicts itself at its top connective by a
/// constant.
pub fn contradiction(store: &mut Store, f: Id) -> (r: Id)
    requires
        old(store).wf(),
        f < old(store)@.formulae.len(),
    ensures
        final(store).wf(),
        final(store)@.extends(old(store)@),
        r < final(store)@.formulae.len(),
        contradicted(final(store)@, f, r),
{
    let ghost before = store@;
    proof {
        assert(before.formula_ok(before.formulae[f as int], f as int));
    }
    match store.formula(f) {
        Formula::Imp(p, q) => {
            let p = *p;
            let q = *q;
            if is_negation_of(store, p, q) || is_negation_of(store, q, p) {
                Formula::falsity(store)
            } else {
                f
            }
        },
        Formula::And(ps) => {
            let found = any_complement(store, ps);
            let ghost ps = ps@;
            if found {
                let r = Formula::falsity(store);
                proof {
                    lemma_complement_kept(before, store@, ps);
                }
                r
            } else {
                f
            }
        },
        Formula::Or(ps) => {
            let found = any_complement(store, ps);
            let ghost ps = ps@;
            if found {
                let r = Formula::truth(store);
                proof {
                    lemma_complement_kept(before, store@, ps);
                }
                r
            } else {
                f
            }
        },
        Formula::Eqv(ps) => {
            let found = any_complement(store, ps);
            let ghost ps = ps@;
            if found {
                let r = Formula::falsity(store);
                proof {
                    lemma_complement_kept(before, store@, ps);
                }
                r
            } else {
                f
            }
        },
        _ => f,
    }
}

/// Whether a member is the negation of another does not change when the
/// store grows.
pub proof fn lemma_complement_kept(old: StoreView, new: StoreView, ps: Seq<Id>)
    requires
        new.extends(old),
        forall|i: int| 0 <= i < ps.len() ==> ps[i] < old.formulae.len(),
    ensures
        has_complement(new, ps) == has_complement(old, ps),
{
    assert forall|x: Id| ps.contains(x) implies x < old.formulae.len() by {
        let k = choose|k: int| 0 <= k < ps.len() && ps[k] == x;
    }
    if has_complement(old, ps) {
        let y = choose|y: Id| ps.contains(y) && member_negated(old, ps, y);
        let x = choose|x: Id| ps.contains(x) && old.is(y, FormulaView::Not(x));
        assert(ps.contains(x) && new.is(y, FormulaView::Not(x)));
        assert(ps.contains(y) && member_negated(new, ps, y));
    }
    if has_complement(new, ps) {
        let y = choose|y: Id| ps.contains(y) && member_negated(new, ps, y);
        let x = choose|x: Id| ps.contains(x) && new.is(y, FormulaView::Not(x));
        assert(ps.contains(x) && old.is(y, FormulaView::Not(x)));
        assert(ps.contains(y) && member_negated(old, ps, y));
    }
}

/// What the removal of a double negation makes of `f`: `¬¬p` is `p`, and
/// every other formula stays as it is.
pub open spec fn unnegated(s: StoreView, f: Id, r: Id) -> bool {
    match s.formulae[f as int] {
        FormulaView::Not(p) => match s.formulae[p as int] {
            FormulaView::Not(q) => r == q,
            _ => r == f,
        },
        _ => r == f,
    }
}

/// Removes a double negation at the top of `f`.
pub fn double_negation(store: &Store, f: Id) -> (r: Id)
    requires
        store.wf(),
        f < store@.formulae.len(),
    ensures
        r < store@.formulae.len(),
        unnegated(store@, f, r),
{
    proof {
        assert(store@.formula_ok(store@.formulae[f as int], f as int));
    }
    match store.formula(f) {
        Formula::Not(p) => {
            proof {
                assert(store@.formula_ok(store@.formulae[*p as int], *p as int));
            }
            match store.formula(*p) {
                Formula::Not(q) => *q,
                _ => f,
            }
        },
        _ => f,
    }
}

/// What the rewriting of trivial connectives makes of `f`.
///
/// An equation or an equivalence class with fewer than two members is `T`.
/// A conjunction without members is `T` and a disjunction without members
/// is `F`; one with a single member is that member. Every other formula
/// stays as it is.
pub open spec fn trivialised(s: StoreView, f: Id, r: Id) -> bool {
    match s.formulae[f as int] {
        FormulaView::Eq(ts) => if ts.len() < 2 {
            s.is(r, FormulaView::T)
        } else {
            r == f
        },
        FormulaView::And(ps) => if ps.len() == 0 {
            s.is(r, FormulaView::T)
        } else if ps.len() == 1 {
            r == ps[0]
        } else {
            r == f
        },
        FormulaView::Or(ps) => if ps.len() == 0 {
            s.is(r, FormulaView::F)
        } else if ps.len() == 1 {
            r == ps[0]
        } else {
            r == f
        },
        FormulaView::Eqv(ps) => if ps.len() < 2 {
            s.is(r, FormulaView::T)
        } else {
            r == f
        },
        _ => r == f,
    }
}

/// Rewrites a connective with too few members to mean anything of its own.
pub fn trivial_nary(store: &mut Store, f: Id) -> (r: Id)
    requires
        old(store).wf(),
        f < old(store)@.formulae.len(),
    ensures
        final(store).wf(),
        final(store)@.extends(old(store)@),
        r < final(store)@.formulae.len(),
        trivialised(final(store)@, f, r),
{
    proof {
        assert(store@.formula_ok(store@.formulae[f as int], f as int));
    }
    match store.formula(f) {
        Formula::Eq(ts) => {
            if ts.len() < 2 {
                Formula::truth(store)
            } else {
                f
            }
        },
        Formula::And(ps) => {
            if ps.is_empty() {
                Formula::truth(store)
            } else if ps.len() == 1 {
                ps.at(0)
            } else {
                f
            }
        },
        Formula::Or(ps) => {
            if ps.is_empty() {
                Formula::falsity(store)
            } else if ps.len() == 1 {
                ps.at(0)
            } else {
                f
            }
        },
        Formula::Eqv(ps) => {
            if ps.len() < 2 {
                Formula::truth(store)
            } else {
                f
            }
        },
        _ => f,
    }
}

/// Whether `x` is a member of `ps` that is no conjunction, or a member of a
/// conjunction that is a member of `ps`.
pub open spec fn member_lifted_and(s: StoreView, ps: Seq<Id>, x: Id) -> bool {
    ||| ps.contains(x) && !(s.formulae[x as int] is And)
    ||| exists|y: Id|
        ps.contains(y) && (match s.formulae[y as int] {
            FormulaView::And(zs) => zs.contains(x),
            _ => false,
        })
}

/// Whether `x` is a member of `ps` that is no disjunction, or a member of a
/// disjunction that is a member of `ps`.
pub open spec fn member_lifted_or(s: StoreView, ps: Seq<Id>, x: Id) -> bool {
    ||| ps.contains(x) && !(s.formulae[x as int] is Or)
    ||| exists|y: Id|
        ps.contains(y) && (match s.formulae[y as int] {
            FormulaView::Or(zs) => zs.contains(x),
            _ => false,
        })
}

/// What flattening makes of `f`: a conjunction takes the members of the
/// conjunctions among its members in their place, a disjunction those of the
/// disjunctions among its members. Every other formula stays as it is.
pub open spec fn flattened(s: StoreView, f: Id, r: Id) -> bool {
    match s.formulae[f as int] {
        FormulaView::And(ps) => is_and(s, r, |x: Id| member_lifted_and(s, ps, x)),
        FormulaView::Or(ps) => is_or(s, r, |x: Id| member_lifted_or(s, ps, x)),
        _ => r == f,
    }
}

/// The members of `ps` with each conjunction among them (or, with
/// `disjunction`, each disjunction) replaced by its members.
fn lifted(store: &Store, ps: &IdSet, disjunction: bool) -> (qs: IdSet)
    requires
        store.wf(),
        ps.wf(),
        forall|i: int| 0 <= i < ps@.len() ==> ps@[i] < store@.formulae.len(),
    ensures
        qs.wf(),
        disjunction ==> forall|x: Id| qs@.contains(x) <==> member_lifted_or(store@, ps@, x),
        !disjunction ==> forall|x: Id| qs@.contains(x) <==> member_lifted_and(store@, ps@, x),
        forall|i: int| 0 <= i < qs@.len() ==> qs@[i] < store@.formulae.len(),
{
    let n = ps.len();
    let mut qs = IdSet::empty();
    let mut i: usize = 0;
    while i < n
        invariant
            n == ps@.len(),
            i <= n,
            store.wf(),
            ps.wf(),
            qs.wf(),
            forall|i: int| 0 <= i < ps@.len() ==> ps@[i] < store@.formulae.len(),
            disjunction ==> forall|x: Id|
                qs@.contains(x) <==> member_lifted_or(store@, ps@.subrange(0, i as int), x),
            !disjunction ==> forall|x: Id|
                qs@.contains(x) <==> member_lifted_and(store@, ps@.subrange(0, i as int), x),
            forall|x: Id| qs@.contains(x) ==> x < store@.formulae.len(),
        decreases n - i,
    {
        let y = ps.at(i);
        let ghost prefix = ps@.subrange(0, i as int);
        let ghost next = ps@.subrange(0, i + 1);
        let ghost sofar = qs@;
        proof {
            crate::collections::lemma_prefix_contains(ps@, i as int);
            assert(store@.formula_ok(store@.formulae[y as int], y as int));
        }
        let inner: Option<&IdSet> = match store.formula(y) {
            Formula::And(zs) => if disjunction {
                None
            } else {
                Some(zs)
            },
            Formula::Or(zs) => if disjunction {
                Some(zs)
            } else {
                None
            },
            _ => None,
        };
        match inner {
            Some(zs) => {
                qs = qs.union(zs);
                proof {
                    assert forall|x: Id| qs@.contains(x) implies x < store@.formulae.len() by {
                        if zs@.contains(x) {
                            let k = choose|k: int| 0 <= k < zs@.len() && zs@[k] == x;
                        }
                    }
                    if disjunction {
                        assert forall|x: Id| qs@.contains(x) <==> member_lifted_or(
                            store@,
                            next,
                            x,
                        ) by {
                            lemma_lifted_step(store@, prefix, next, y, x);
                        }
                    } else {
                        assert forall|x: Id| qs@.contains(x) <==> member_lifted_and(
                            store@,
                            next,
                            x,
                        ) by {
                            lemma_lifted_step(store@, prefix, next, y, x);
                        }
                    }
                }
            },
            None => {
                qs = qs.with(y);
                proof {
                    if disjunction {
                        assert forall|x: Id| qs@.contains(x) <==> member_lifted_or(
                            store@,
                            next,
                            x,
                        ) by {
                            lemma_lifted_step(store@, prefix, next, y, x);
                        }
                    } else {
                        assert forall|x: Id| qs@.contains(x) <==> member_lifted_and(
                            store@,
                            next,
                            x,
                        ) by {
                            lemma_lifted_step(store@, prefix, next, y, x);
                        }
                    }
                }
            },
        }
        i += 1;
    }
    proof {
        assert(ps@.subrange(0, n as int) =~= ps@);
        assert forall|i: int| 0 <= i < qs@.len() implies qs@[i] < store@.formulae.len() by {
            assert(qs@.contains(qs@[i]));
        }
    }
    qs
}

/// What one more member adds to the lifted members.
pub proof fn lemma_lifted_step(s: StoreView, prefix: Seq<Id>, next: Seq<Id>, y: Id, x: Id)
    requires
        forall|z: Id| next.contains(z) <==> (prefix.contains(z) || z == y),
    ensures
        member_lifted_and(s, next, x) <==> (member_lifted_and(s, prefix, x) || (match s.formulae[y as int] {
            FormulaView::And(zs) => zs.contains(x),
            _ => x == y,
        })),
        member_lifted_or(s, next, x) <==> (member_lifted_or(s, prefix, x) || (match s.formulae[y as int] {
            FormulaView::Or(zs) => zs.contains(x),
            _ => x == y,
        })),
{
    assert(next.contains(y));
    if member_lifted_and(s, prefix, x) {
        if prefix.contains(x) && !(s.formulae[x as int] is And) {
            assert(next.contains(x));
        } else {
            let w = choose|w: Id|
                prefix.contains(w) && (match s.formulae[w as int] {
                    FormulaView::And(zs) => zs.contains(x),
                    _ => false,
                });
            assert(next.contains(w));
        }
    }
    if member_lifted_or(s, prefix, x) {
        if prefix.contains(x) && !(s.formulae[x as int] is Or) {
            assert(next.contains(x));
        } else {
            let w = choose|w: Id|
                prefix.contains(w) && (match s.formulae[w as int] {
                    FormulaView::Or(zs) => zs.contains(x),
                    _ => false,
                });
            assert(next.contains(w));
        }
    }
}

/// Flattens a conjunction of conjunctions, or a disjunction of disjunctions.
pub fn lift_associative(store: &mut Store, f: Id) -> (r: Id)
    requires
        old(store).wf(),
        f < old(store)@.formulae.len(),
    ensures
        final(store).wf(),
        final(store)@.extends(old(store)@),
        r < final(store)@.formulae.len(),
        flattened(final(store)@, f, r),
{
    let ghost before = store@;
    proof {
        assert(before.formula_ok(before.formulae[f as int], f as int));
    }
    match store.formula(f) {
        Formula::And(ps) => {
            let qs = lifted(store, ps, false);
            let ghost ps = ps@;
            let r = store.intern(Formula::And(qs));
            proof {
                lemma_lifted_kept(before, store@, ps);
            }
            r
        },
        Formula::Or(ps) => {
            let qs = lifted(store, ps, true);
            let ghost ps = ps@;
            let r = store.intern(Formula::Or(qs));
            proof {
                lemma_lifted_kept(before, store@, ps);
            }
            r
        },
        _ => f,
    }
}

/// What is lifted does not change when the store grows.
pub proof fn lemma_lifted_kept(old: StoreView, new: StoreView, ps: Seq<Id>)
    requires
        new.extends(old),
        forall|i: int| 0 <= i < ps.len() ==> ps[i] < old.formulae.len(),
    ensures
        forall|x: Id| #[trigger] member_lifted_and(new, ps, x) == member_lifted_and(old, ps, x),
        forall|x: Id| #[trigger] member_lifted_or(new, ps, x) == member_lifted_or(old, ps, x),
{
    assert forall|x: Id| ps.contains(x) implies x < old.formulae.len() by {
        let k = choose|k: int| 0 <= k < ps.len() && ps[k] == x;
    }
    assert forall|x: Id| #[trigger]
        member_lifted_and(new, ps, x) == member_lifted_and(old, ps, x) by {
        if member_lifted_and(new, ps, x) && !(ps.contains(x) && !(new.formulae[x as int] is And)) {
            let y = choose|y: Id|
                ps.contains(y) && (match new.formulae[y as int] {
                    FormulaView::And(zs) => zs.contains(x),
                    _ => false,
                });
            assert(new.formulae[y as int] == old.formulae[y as int]);
        }
        if member_lifted_and(old, ps, x) && !(ps.contains(x) && !(old.formulae[x as int] is And)) {
            let y = choose|y: Id|
                ps.contains(y) && (match old.formulae[y as int] {
                    FormulaView::And(zs) => zs.contains(x),
                    _ => false,
                });
            assert(new.formulae[y as int] == old.formulae[y as int]);
        }
    }
    assert forall|x: Id| #[trigger]
        member_lifted_or(new, ps, x) == member_lifted_or(old, ps, x) by {
        if member_lifted_or(new, ps, x) && !(ps.contains(x) && !(new.formulae[x as int] is Or)) {
            let y = choose|y: Id|
                ps.contains(y) && (match new.formulae[y as int] {
                    FormulaView::Or(zs) => zs.contains(x),
                    _ => false,
                });
            assert(new.formulae[y as int] == old.formulae[y as int]);
        }
        if member_lifted_or(old, ps, x) && !(ps.contains(x) && !(old.formulae[x as int] is Or)) {
            let y = choose|y: Id|
                ps.contains(y) && (match old.formulae[y as int] {
                    FormulaView::Or(zs) => zs.contains(x),
                    _ => false,
                });
            assert(new.formulae[y as int] == old.formulae[y as int]);
        }
    }
}

/// The class of the two formulae `l` and `r`.
pub open spec fn pair_of(l: Id, r: Id) -> Seq<Id> {
    if l < r {
        seq![l, r]
    } else if l == r {
        seq![l]
    } else {
        seq![r, l]
    }
}

/// Whether `x` is an implication whose converse is a member of `ps`.
pub open spec fn is_paired(s: StoreView, ps: Seq<Id>, x: Id) -> bool {
    match s.formulae[x as int] {
        FormulaView::Imp(l, r) => exists|y: Id| ps.contains(y) && s.is(y, FormulaView::Imp(r, l)),
        _ => false,
    }
}

/// Whether `z` is a member of the conjunction that folding the implication
/// `x` and its converse makes of `ps`: a member other than the two, or the
/// equivalence of the two sides.
pub open spec fn member_folded(s: StoreView, ps: Seq<Id>, x: Id, z: Id) -> bool {
    match s.formulae[x as int] {
        FormulaView::Imp(l, r) => (ps.contains(z) && z != x && !s.is(z, FormulaView::Imp(r, l)))
            || s.is(z, FormulaView::Eqv(pair_of(l, r))),
        _ => false,
    }
}

/// Whether the member at `i` is the first implication of `ps` whose converse
/// is a member too.
pub open spec fn first_paired(s: StoreView, ps: Seq<Id>, i: int) -> bool {
    &&& 0 <= i < ps.len()
    &&& is_paired(s, ps, ps[i])
    &&& forall|j: int| 0 <= j < i ==> !is_paired(s, ps, #[trigger] ps[j])
}

/// What the pairing of implications makes of `f`.
///
/// In a conjunction, the first member that is an implication whose converse
/// is a member too is folded with its converse into the equivalence of its
/// two sides. A conjunction without such a member, and every other formula,
/// stays as it is.
pub open spec fn implications_combined(s: StoreView, f: Id, r: Id) -> bool {
    match s.formulae[f as int] {
        FormulaView::And(ps) => if exists|i: int| first_paired(s, ps, i) {
            exists|i: int|
                first_paired(s, ps, i) && is_and(s, r, |z: Id| member_folded(s, ps, ps[i], z))
        } else {
            r == f
        },
        _ => r == f,
    }
}

/// Which members are paired does not change when the store grows.
pub proof fn lemma_paired_kept(old: StoreView, new: StoreView, ps: Seq<Id>, x: Id)
    requires
        new.extends(old),
        forall|i: int| 0 <= i < ps.len() ==> ps[i] < old.formulae.len(),
        ps.contains(x),
    ensures
        is_paired(new, ps, x) == is_paired(old, ps, x),
{
    assert forall|y: Id| ps.contains(y) implies y < old.formulae.len() by {
        let k = choose|k: int| 0 <= k < ps.len() && ps[k] == y;
    }
    assert(new.formulae[x as int] == old.formulae[x as int]);
    match old.formulae[x as int] {
        FormulaView::Imp(l, r) => {
            if is_paired(new, ps, x) {
                let y = choose|y: Id| ps.contains(y) && new.is(y, FormulaView::Imp(r, l));
                assert(ps.contains(y) && old.is(y, FormulaView::Imp(r, l)));
            }
            if is_paired(old, ps, x) {
                let y = choose|y: Id| ps.contains(y) && old.is(y, FormulaView::Imp(r, l));
                assert(ps.contains(y) && new.is(y, FormulaView::Imp(r, l)));
            }
        },
        _ => {},
    }
}

/// Folds an implication and its converse, both members of a conjunction,
/// into an equivalence.
pub fn combine_implications(store: &mut Store, f: Id) -> (r: Id)
    requires
        old(store).wf(),
        f < old(store)@.formulae.len(),
    ensures
        final(store).wf(),
        final(store)@.extends(old(store)@),
        r < final(store)@.formulae.len(),
        implications_combined(final(store)@, f, r),
        crate::simplification::sound::pairs_present(final(store)@, f),
{
    let ghost before = store@;
    proof {
        assert(before.formula_ok(before.formulae[f as int], f as int));
    }
    match store.formula(f) {
        Formula::And(ps) => {
            let ps = ps.clone();
            let n = ps.len();
            let mut i: usize = 0;
            while i < n
                invariant
                    n == ps@.len(),
                    i <= n,
                    store.wf(),
                    store@ == before,
                    before == old(store)@,
                    ps.wf(),
                    before.is(f, FormulaView::And(ps@)),
                    forall|j: int| 0 <= j < ps@.len() ==> ps@[j] < f,
                    forall|j: int| 0 <= j < i ==> !is_paired(before, ps@, #[trigger] ps@[j]),
                decreases n - i,
            {
                let x = ps.at(i);
                proof {
                    assert(before.formula_ok(before.formulae[x as int], x as int));
                }
                let sides: Option<(Id, Id)> = match store.formula(x) {
                    Formula::Imp(l, r) => Some((*l, *r)),
                    _ => None,
                };
                match sides {
                    Some((l, r)) => {
                        let converse = store.lookup(&Formula::Imp(r, l));
                        match converse {
                            Some(y) => {
                                if ps.contains(y) {
                                    let single = IdSet::singleton(l);
                                    let pair = single.with(r);
                                    proof {
                                        assert(single@[0] == l);
                                        assert forall|x: Id| single@.contains(x) <==> x == l by {}
                                        lemma_pair(pair@, l, r);
                                    }
                                    let e = store.intern(Formula::Eqv(pair));
                                    let qs = ps.without(y).without(x).with(e);
                                    proof {
                                        assert(ps@.contains(ps@[i as int]));
                                        assert forall|k: int| 0 <= k < qs@.len() implies qs@[k]
                                            < store@.formulae.len() by {
                                            assert(qs@.contains(qs@[k]));
                                            if qs@[k] != e {
                                                let m = choose|m: int|
                                                    0 <= m < ps@.len() && ps@[m] == qs@[k];
                                            }
                                        }
                                    }
                                    let res = store.intern(Formula::And(qs));
                                    proof {
                                        let s = store@;
                                        assert(is_paired(s, ps@, x)) by {
                                            assert(ps@.contains(y) && s.is(
                                                y,
                                                FormulaView::Imp(r, l),
                                            ));
                                        }
                                        assert forall|j: int| 0 <= j < i implies !is_paired(
                                            s,
                                            ps@,
                                            #[trigger] ps@[j],
                                        ) by {
                                            assert(ps@.contains(ps@[j]));
                                            lemma_paired_kept(before, s, ps@, ps@[j]);
                                        }
                                        assert(first_paired(s, ps@, i as int));
                                        assert forall|j: int| #[trigger]
                                            first_paired(s, ps@, j) implies j == i by {
                                            if j < i {
                                                assert(!is_paired(s, ps@, ps@[j]));
                                            }
                                            if i < j {
                                                assert(!is_paired(s, ps@, ps@[i as int]));
                                            }
                                        }
                                        assert(s.is(e, FormulaView::Eqv(pair_of(l, r))));
                                        assert forall|z: Id| qs@.contains(z) <==> member_folded(
                                            s,
                                            ps@,
                                            x,
                                            z,
                                        ) by {
                                            crate::store::lemma_interning(s, z, y);
                                            crate::store::lemma_interning(s, z, e);
                                        }
                                    }
                                    return res;
                                } else {
                                    proof {
                                        if is_paired(before, ps@, x) {
                                            let w = choose|w: Id|
                                                ps@.contains(w) && before.is(
                                                    w,
                                                    FormulaView::Imp(r, l),
                                                );
                                            crate::store::lemma_interning(before, w, y);
                                        }
                                    }
                                }
                            },
                            None => {
                                proof {
                                    if is_paired(before, ps@, x) {
                                        let w = choose|w: Id|
                                            ps@.contains(w) && before.is(w, FormulaView::Imp(r, l));
                                    }
                                }
                            },
                        }
                    },
                    None => {},
                }
                i += 1;
            }
            proof {
                if exists|i: int| first_paired(before, ps@, i) {
                    let i = choose|i: int| first_paired(before, ps@, i);
                    assert(!is_paired(before, ps@, ps@[i]));
                }
                assert forall|j: int| !#[trigger] first_paired(before, ps@, j) by {
                    if first_paired(before, ps@, j) {
                        assert(!is_paired(before, ps@, ps@[j]));
                    }
                }
            }
            f
        },
        _ => f,
    }
}

/// The set of `l` and `r` is the class of the two.
pub proof fn lemma_pair(pair: Seq<Id>, l: Id, r: Id)
    requires
        ascending(pair),
        forall|x: Id| pair.contains(x) <==> (x == l || x == r),
    ensures
        pair == pair_of(l, r),
{
    let want = pair_of(l, r);
    assert forall|x: Id| want.contains(x) <==> (x == l || x == r) by {
        if x == l || x == r {
            if l < r {
                assert(want[0] == l && want[1] == r);
            } else if l == r {
                assert(want[0] == l);
            } else {
                assert(want[0] == r && want[1] == l);
            }
        }
    }
    crate::collections::lemma_ascending_unique(pair, want);
}

} // verus!
