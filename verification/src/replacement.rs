//! Putting one term in the place of another.
//!
//! Every occurrence of a term is replaced, at any depth; what is put in
//! its place is not looked into again.

use crate::collections::{Id, IdList, IdSet};
use crate::formula::{Formula, FormulaView};
use crate::store::{Store, StoreView};
use crate::substitution::held;
use crate::term::{Term, TermView};
use vstd::prelude::*;

verus! {

/// Whether `r` is the term `t` with `to` in the place of every occurrence
/// of the term `from`.
pub open spec fn term_replaced(s: StoreView, t: Id, from: Id, to: Id, r: Id) -> bool
    decreases t,
{
    t < s.terms.len() && r < s.terms.len() && if t == from {
        r == to
    } else {
        match s.terms[t as int] {
            TermView::Var(_) => r == t,
            TermView::Fn(f, ts) => match s.terms[r as int] {
                TermView::Fn(g, rs) => g == f && rs.len() == ts.len() && forall|i: int|
                    0 <= i < ts.len() ==> (#[trigger] ts[i]) < t && term_replaced(
                        s,
                        ts[i],
                        from,
                        to,
                        rs[i],
                    ),
                _ => false,
            },
        }
    }
}

/// A replacement that holds in a store holds in every store that extends
/// it.
pub proof fn lemma_term_replaced_extends(
    old: StoreView,
    new: StoreView,
    t: Id,
    from: Id,
    to: Id,
    r: Id,
)
    requires
        new.extends(old),
        term_replaced(old, t, from, to, r),
    ensures
        term_replaced(new, t, from, to, r),
    decreases t,
{
    assert(new.terms[t as int] == old.terms[t as int]);
    assert(new.terms[r as int] == old.terms[r as int]);
    if t != from {
        match old.terms[t as int] {
            TermView::Var(_) => {},
            TermView::Fn(f, ts) => {
                match old.terms[r as int] {
                    TermView::Fn(g, rs) => {
                        assert forall|i: int| 0 <= i < ts.len() implies (#[trigger] ts[i]) < t
                            && term_replaced(new, ts[i], from, to, rs[i]) by {
                            lemma_term_replaced_extends(old, new, ts[i], from, to, rs[i]);
                        }
                    },
                    _ => {},
                }
            },
        }
    }
}

impl Term {
    /// The term `t` with `to` in the place of every occurrence of the term
    /// `from`.
    pub fn replace(store: &mut Store, t: Id, from: Id, to: Id) -> (r: Id)
        requires
            old(store).wf(),
            t < old(store)@.terms.len(),
            to < old(store)@.terms.len(),
        ensures
            final(store).wf(),
            final(store)@.extends(old(store)@),
            final(store)@.formulae == old(store)@.formulae,
            term_replaced(final(store)@, t, from, to, r),
        decreases t,
    {
        let ghost before = store@;
        proof {
            assert(before.term_ok(before.terms[t as int], t as int));
        }
        if t == from {
            return to;
        }
        match store.term(t) {
            Term::Var(_) => t,
            Term::Fn(f, ts) => {
                let f = *f;
                let ts = ts.clone();
                let n = ts.len();
                let mut rs = IdList::new();
                let mut i: usize = 0;
                while i < n
                    invariant
                        n == ts@.len(),
                        i <= n,
                        store.wf(),
                        store@.extends(before),
                        store@.formulae == before.formulae,
                        before.terms[t as int] == TermView::Fn(f, ts@),
                        t < before.terms.len(),
                        to < before.terms.len(),
                        forall|j: int| 0 <= j < ts@.len() ==> ts@[j] < t,
                        rs@.len() == i,
                        forall|j: int|
                            0 <= j < i ==> term_replaced(
                                store@,
                                #[trigger] ts@[j],
                                from,
                                to,
                                rs@[j],
                            ),
                    decreases n - i,
                {
                    let ghost earlier = store@;
                    let ghost sofar = rs@;
                    let x = Term::replace(store, ts.at(i), from, to);
                    rs.push(x);
                    proof {
                        assert forall|j: int| 0 <= j < i + 1 implies term_replaced(
                            store@,
                            #[trigger] ts@[j],
                            from,
                            to,
                            rs@[j],
                        ) by {
                            if j < i {
                                lemma_term_replaced_extends(
                                    earlier,
                                    store@,
                                    ts@[j],
                                    from,
                                    to,
                                    sofar[j],
                                );
                            }
                        }
                    }
                    i += 1;
                }
                let ghost middle = store@;
                let ghost made = rs@;
                proof {
                    assert forall|j: int| 0 <= j < made.len() implies made[j]
                        < middle.terms.len() by {
                        assert(term_replaced(middle, ts@[j], from, to, made[j]));
                    }
                }
                let r = store.intern_term(Term::Fn(f, rs));
                proof {
                    let s = store@;
                    assert forall|j: int| 0 <= j < ts@.len() implies (#[trigger] ts@[j]) < t
                        && term_replaced(s, ts@[j], from, to, made[j]) by {
                        lemma_term_replaced_extends(middle, s, ts@[j], from, to, made[j]);
                    }
                }
                r
            },
        }
    }
}



/// Whether every one of the terms `ts` has its image among `rs`, and every
/// one of `rs` is the image of one of `ts`.
pub open spec fn terms_exchanged(
    s: StoreView,
    ts: Seq<Id>,
    rs: Seq<Id>,
    from: Id, to: Id,
) -> bool {
    &&& forall|t: Id| #[trigger]
        ts.contains(t) ==> exists|z: Id|
            rs.contains(z) && term_replaced(s, t, from, to, z)
    &&& forall|z: Id| #[trigger]
        held(rs, z) ==> exists|t: Id|
            ts.contains(t) && term_replaced(s, t, from, to, z)
}

/// Whether `rs` holds, place by place, what the replacement makes of `ts`.
pub open spec fn terms_replaced(
    s: StoreView,
    ts: Seq<Id>,
    from: Id, to: Id,
    rs: Seq<Id>,
) -> bool {
    rs.len() == ts.len() && forall|i: int|
        0 <= i < ts.len() ==> term_replaced(s, #[trigger] ts[i], from, to, rs[i])
}

/// Whether every one of the members `ps` of the connective `f` has its
/// image among `qs`, and every one of `qs` is the image of one of `ps`.
pub open spec fn members_exchanged(
    s: StoreView,
    f: Id,
    ps: Seq<Id>,
    qs: Seq<Id>,
    from: Id, to: Id,
) -> bool
    decreases f, 0nat,
{
    &&& forall|p: Id| #[trigger]
        ps.contains(p) ==> p < f && exists|z: Id|
            qs.contains(z) && replaced(s, p, from, to, z)
    &&& forall|z: Id| #[trigger]
        held(qs, z) ==> exists|p: Id|
            ps.contains(p) && p < f && replaced(s, p, from, to, z)
}

/// Whether `r` is the formula `f` with `to` in the place of every
/// occurrence of the term `from`.
pub open spec fn replaced(
    s: StoreView,
    f: Id,
    from: Id, to: Id,
    r: Id,
) -> bool
    decreases f, 1nat,
{
    f < s.formulae.len() && r < s.formulae.len() && match s.formulae[f as int] {
        FormulaView::T => r == f,
        FormulaView::F => r == f,
        FormulaView::Eq(ts) => match s.formulae[r as int] {
            FormulaView::Eq(rs) => terms_exchanged(s, ts, rs, from, to),
            _ => false,
        },
        FormulaView::Prd(p, ts) => match s.formulae[r as int] {
            FormulaView::Prd(q, rs) => q == p && terms_replaced(s, ts, from, to, rs),
            _ => false,
        },
        FormulaView::Not(p) => match s.formulae[r as int] {
            FormulaView::Not(q) => p < f && replaced(s, p, from, to, q),
            _ => false,
        },
        FormulaView::Imp(p, q) => match s.formulae[r as int] {
            FormulaView::Imp(a, b) => p < f && q < f && replaced(s, p, from, to, a)
                && replaced(s, q, from, to, b),
            _ => false,
        },
        FormulaView::Or(ps) => match s.formulae[r as int] {
            FormulaView::Or(qs) => members_exchanged(s, f, ps, qs, from, to),
            _ => false,
        },
        FormulaView::And(ps) => match s.formulae[r as int] {
            FormulaView::And(qs) => members_exchanged(s, f, ps, qs, from, to),
            _ => false,
        },
        FormulaView::Eqv(ps) => match s.formulae[r as int] {
            FormulaView::Eqv(qs) => members_exchanged(s, f, ps, qs, from, to),
            _ => false,
        },
        FormulaView::All(p) => match s.formulae[r as int] {
            FormulaView::All(q) => p < f && replaced(
                s,
                p,
                from, to,
                q,
            ),
            _ => false,
        },
        FormulaView::Ex(p) => match s.formulae[r as int] {
            FormulaView::Ex(q) => p < f && replaced(
                s,
                p,
                from, to,
                q,
            ),
            _ => false,
        },
    }
}

/// The images of terms in a store are their images in every store that
/// extends it.
pub proof fn lemma_terms_exchanged_extends(
    old: StoreView,
    new: StoreView,
    ts: Seq<Id>,
    rs: Seq<Id>,
    from: Id, to: Id,
)
    requires
        new.extends(old),
        terms_exchanged(old, ts, rs, from, to),
    ensures
        terms_exchanged(new, ts, rs, from, to),
{
    assert forall|t: Id| #[trigger] ts.contains(t) implies exists|z: Id|
        rs.contains(z) && term_replaced(new, t, from, to, z) by {
        let z = choose|z: Id| rs.contains(z) && term_replaced(old, t, from, to, z);
        lemma_term_replaced_extends(old, new, t, from, to, z);
    }
    assert forall|z: Id| #[trigger] held(rs, z) implies exists|t: Id|
        ts.contains(t) && term_replaced(new, t, from, to, z) by {
        let t = choose|t: Id| ts.contains(t) && term_replaced(old, t, from, to, z);
        lemma_term_replaced_extends(old, new, t, from, to, z);
    }
}

/// A replacement that holds in a store holds in every store that extends
/// it.
pub proof fn lemma_replaced_extends(
    old: StoreView,
    new: StoreView,
    f: Id,
    from: Id, to: Id,
    r: Id,
)
    requires
        new.extends(old),
        replaced(old, f, from, to, r),
    ensures
        replaced(new, f, from, to, r),
    decreases f, 1nat,
{
    assert(new.formulae[f as int] == old.formulae[f as int]);
    assert(new.formulae[r as int] == old.formulae[r as int]);
    match old.formulae[f as int] {
        FormulaView::Eq(ts) => {
            match old.formulae[r as int] {
                FormulaView::Eq(rs) => {
                    lemma_terms_exchanged_extends(old, new, ts, rs, from, to);
                },
                _ => {},
            }
        },
        FormulaView::Prd(p, ts) => {
            match old.formulae[r as int] {
                FormulaView::Prd(q, rs) => {
                    assert forall|i: int| 0 <= i < ts.len() implies term_replaced(
                        new,
                        #[trigger] ts[i],
                        from, to,
                        rs[i],
                    ) by {
                        lemma_term_replaced_extends(old, new, ts[i], from, to, rs[i]);
                    }
                },
                _ => {},
            }
        },
        FormulaView::Not(p) => {
            match old.formulae[r as int] {
                FormulaView::Not(q) => {
                    lemma_replaced_extends(old, new, p, from, to, q);
                },
                _ => {},
            }
        },
        FormulaView::Imp(p, q) => {
            match old.formulae[r as int] {
                FormulaView::Imp(a, b) => {
                    lemma_replaced_extends(old, new, p, from, to, a);
                    lemma_replaced_extends(old, new, q, from, to, b);
                },
                _ => {},
            }
        },
        FormulaView::Or(ps) => {
            match old.formulae[r as int] {
                FormulaView::Or(qs) => {
                    lemma_members_exchanged_extends(old, new, f, ps, qs, from, to);
                },
                _ => {},
            }
        },
        FormulaView::And(ps) => {
            match old.formulae[r as int] {
                FormulaView::And(qs) => {
                    lemma_members_exchanged_extends(old, new, f, ps, qs, from, to);
                },
                _ => {},
            }
        },
        FormulaView::Eqv(ps) => {
            match old.formulae[r as int] {
                FormulaView::Eqv(qs) => {
                    lemma_members_exchanged_extends(old, new, f, ps, qs, from, to);
                },
                _ => {},
            }
        },
        FormulaView::All(p) => {
            match old.formulae[r as int] {
                FormulaView::All(q) => {
                    lemma_replaced_extends(old, new, p, from, to, q);
                },
                _ => {},
            }
        },
        FormulaView::Ex(p) => {
            match old.formulae[r as int] {
                FormulaView::Ex(q) => {
                    lemma_replaced_extends(old, new, p, from, to, q);
                },
                _ => {},
            }
        },
        _ => {},
    }
}

/// The images of the members of a connective in a store are their images in
/// every store that extends it.
pub proof fn lemma_members_exchanged_extends(
    old: StoreView,
    new: StoreView,
    f: Id,
    ps: Seq<Id>,
    qs: Seq<Id>,
    from: Id, to: Id,
)
    requires
        new.extends(old),
        members_exchanged(old, f, ps, qs, from, to),
    ensures
        members_exchanged(new, f, ps, qs, from, to),
    decreases f, 0nat,
{
    assert forall|p: Id| #[trigger] ps.contains(p) implies p < f && exists|z: Id|
        qs.contains(z) && replaced(new, p, from, to, z) by {
        let z = choose|z: Id| qs.contains(z) && replaced(old, p, from, to, z);
        lemma_replaced_extends(old, new, p, from, to, z);
    }
    assert forall|z: Id| #[trigger] held(qs, z) implies exists|p: Id|
        ps.contains(p) && p < f && replaced(new, p, from, to, z) by {
        let p = choose|p: Id|
            ps.contains(p) && p < f && replaced(old, p, from, to, z);
        lemma_replaced_extends(old, new, p, from, to, z);
    }
}

/// One more term and its image extend a set of terms and the set of their
/// images.
pub proof fn lemma_terms_exchanged_step(
    old: StoreView,
    new: StoreView,
    ts: Seq<Id>,
    rs: Seq<Id>,
    next: Seq<Id>,
    out: Seq<Id>,
    t: Id,
    z: Id,
    from: Id, to: Id,
)
    requires
        new.extends(old),
        terms_exchanged(old, ts, rs, from, to),
        forall|x: Id| next.contains(x) <==> (ts.contains(x) || x == t),
        forall|x: Id| out.contains(x) <==> (rs.contains(x) || x == z),
        term_replaced(new, t, from, to, z),
    ensures
        terms_exchanged(new, next, out, from, to),
{
    lemma_terms_exchanged_extends(old, new, ts, rs, from, to);
    assert forall|x: Id| #[trigger] next.contains(x) implies exists|y: Id|
        out.contains(y) && term_replaced(new, x, from, to, y) by {
        if ts.contains(x) {
            let y = choose|y: Id|
                rs.contains(y) && term_replaced(new, x, from, to, y);
            assert(out.contains(y));
        } else {
            assert(out.contains(z));
        }
    }
    assert forall|y: Id| #[trigger] held(out, y) implies exists|x: Id|
        next.contains(x) && term_replaced(new, x, from, to, y) by {
        if rs.contains(y) {
            assert(held(rs, y));
            let x = choose|x: Id|
                ts.contains(x) && term_replaced(new, x, from, to, y);
            assert(next.contains(x));
        } else {
            assert(next.contains(t));
        }
    }
}

/// One more member and its image extend a set of members and the set of
/// their images.
pub proof fn lemma_members_exchanged_step(
    old: StoreView,
    new: StoreView,
    f: Id,
    ps: Seq<Id>,
    qs: Seq<Id>,
    next: Seq<Id>,
    out: Seq<Id>,
    p: Id,
    z: Id,
    from: Id, to: Id,
)
    requires
        new.extends(old),
        members_exchanged(old, f, ps, qs, from, to),
        forall|x: Id| next.contains(x) <==> (ps.contains(x) || x == p),
        forall|x: Id| out.contains(x) <==> (qs.contains(x) || x == z),
        p < f,
        replaced(new, p, from, to, z),
    ensures
        members_exchanged(new, f, next, out, from, to),
{
    lemma_members_exchanged_extends(old, new, f, ps, qs, from, to);
    assert forall|x: Id| #[trigger] next.contains(x) implies x < f && exists|y: Id|
        out.contains(y) && replaced(new, x, from, to, y) by {
        if ps.contains(x) {
            let y = choose|y: Id| qs.contains(y) && replaced(new, x, from, to, y);
            assert(out.contains(y));
        } else {
            assert(out.contains(z));
        }
    }
    assert forall|y: Id| #[trigger] held(out, y) implies exists|x: Id|
        next.contains(x) && x < f && replaced(new, x, from, to, y) by {
        if qs.contains(y) {
            assert(held(qs, y));
            let x = choose|x: Id|
                ps.contains(x) && x < f && replaced(new, x, from, to, y);
            assert(next.contains(x));
        } else {
            assert(next.contains(p));
        }
    }
}

/// The images of the terms `ts`, as a set.
fn replace_term_set(store: &mut Store, ts: &IdSet, from: Id, to: Id) -> (rs:
    IdSet)
    requires
        old(store).wf(),
        forall|i: int| 0 <= i < ts@.len() ==> ts@[i] < old(store)@.terms.len(),
        to < old(store)@.terms.len(),
    ensures
        final(store).wf(),
        final(store)@.extends(old(store)@),
        final(store)@.formulae == old(store)@.formulae,
        rs.wf(),
        forall|i: int| 0 <= i < rs@.len() ==> rs@[i] < final(store)@.terms.len(),
        terms_exchanged(final(store)@, ts@, rs@, from, to),
{
    let n = ts.len();
    let mut rs = IdSet::empty();
    let mut i: usize = 0;
    proof {
        assert(ts@.subrange(0, 0) =~= Seq::<Id>::empty());
    }
    while i < n
        invariant
            n == ts@.len(),
            i <= n,
            to < store@.terms.len(),
            store.wf(),
            store@.extends(old(store)@),
            store@.formulae == old(store)@.formulae,
            forall|j: int| 0 <= j < ts@.len() ==> ts@[j] < old(store)@.terms.len(),
            rs.wf(),
            forall|z: Id| rs@.contains(z) ==> z < store@.terms.len(),
            terms_exchanged(store@, ts@.subrange(0, i as int), rs@, from, to),
        decreases n - i,
    {
        let ghost before = store@;
        let ghost sofar = rs@;
        let t = ts.at(i);
        let z = Term::replace(store, t, from, to);
        rs = rs.with(z);
        proof {
            crate::collections::lemma_prefix_contains(ts@, i as int);
            lemma_terms_exchanged_step(
                before,
                store@,
                ts@.subrange(0, i as int),
                sofar,
                ts@.subrange(0, i + 1),
                rs@,
                t,
                z,
                from, to,
            );
        }
        i += 1;
    }
    proof {
        assert(ts@.subrange(0, n as int) =~= ts@);
        assert forall|i: int| 0 <= i < rs@.len() implies rs@[i] < store@.terms.len() by {
            assert(rs@.contains(rs@[i]));
        }
    }
    rs
}

/// The images of the terms `ts`, place by place.
fn replace_term_list(store: &mut Store, ts: &IdList, from: Id, to: Id) -> (rs:
    IdList)
    requires
        old(store).wf(),
        forall|i: int| 0 <= i < ts@.len() ==> ts@[i] < old(store)@.terms.len(),
        to < old(store)@.terms.len(),
    ensures
        final(store).wf(),
        final(store)@.extends(old(store)@),
        final(store)@.formulae == old(store)@.formulae,
        forall|i: int| 0 <= i < rs@.len() ==> rs@[i] < final(store)@.terms.len(),
        terms_replaced(final(store)@, ts@, from, to, rs@),
{
    let n = ts.len();
    let mut rs = IdList::new();
    let mut i: usize = 0;
    while i < n
        invariant
            n == ts@.len(),
            i <= n,
            to < store@.terms.len(),
            store.wf(),
            store@.extends(old(store)@),
            store@.formulae == old(store)@.formulae,
            forall|j: int| 0 <= j < ts@.len() ==> ts@[j] < old(store)@.terms.len(),
            rs@.len() == i,
            forall|j: int|
                0 <= j < i ==> term_replaced(
                    store@,
                    #[trigger] ts@[j],
                    from, to,
                    rs@[j],
                ),
        decreases n - i,
    {
        let ghost before = store@;
        let ghost sofar = rs@;
        let z = Term::replace(store, ts.at(i), from, to);
        rs.push(z);
        proof {
            assert forall|j: int| 0 <= j < i + 1 implies term_replaced(
                store@,
                #[trigger] ts@[j],
                from, to,
                rs@[j],
            ) by {
                if j < i {
                    lemma_term_replaced_extends(
                        before,
                        store@,
                        ts@[j],
                        from, to,
                        sofar[j],
                    );
                }
            }
        }
        i += 1;
    }
    proof {
        assert forall|i: int| 0 <= i < rs@.len() implies rs@[i] < store@.terms.len() by {
            assert(term_replaced(store@, ts@[i], from, to, rs@[i]));
        }
    }
    rs
}

impl Formula {
    /// The formula `f` with `to` in the place of every occurrence of the
    /// term `from`.
    pub fn replace(store: &mut Store, f: Id, from: Id, to: Id) -> (r: Id)
        requires
            old(store).wf(),
            f < old(store)@.formulae.len(),
            to < old(store)@.terms.len(),
        ensures
            final(store).wf(),
            final(store)@.extends(old(store)@),
            replaced(final(store)@, f, from, to, r),
        decreases f, 1nat,
    {
        let ghost before = store@;
        proof {
            assert(before.formula_ok(before.formulae[f as int], f as int));
        }
        match store.formula(f) {
            Formula::T | Formula::F => f,
            Formula::Eq(ts) => {
                let ts = ts.clone();
                let rs = replace_term_set(store, &ts, from, to);
                let ghost middle = store@;
                let ghost made = rs@;
                let r = store.intern(Formula::Eq(rs));
                proof {
                    lemma_terms_exchanged_extends(middle, store@, ts@, made, from, to);
                }
                r
            },
            Formula::Prd(p, ts) => {
                let p = *p;
                let ts = ts.clone();
                let rs = replace_term_list(store, &ts, from, to);
                let ghost middle = store@;
                let ghost made = rs@;
                let r = store.intern(Formula::Prd(p, rs));
                proof {
                    assert forall|i: int| 0 <= i < ts@.len() implies term_replaced(
                        store@,
                        #[trigger] ts@[i],
                        from, to,
                        made[i],
                    ) by {
                        lemma_term_replaced_extends(
                            middle,
                            store@,
                            ts@[i],
                            from, to,
                            made[i],
                        );
                    }
                }
                r
            },
            Formula::Not(p) => {
                let p = *p;
                let q = Formula::replace(store, p, from, to);
                let ghost middle = store@;
                let r = store.intern(Formula::Not(q));
                proof {
                    lemma_replaced_extends(middle, store@, p, from, to, q);
                }
                r
            },
            Formula::Imp(p, q) => {
                let p = *p;
                let q = *q;
                let a = Formula::replace(store, p, from, to);
                let ghost middle = store@;
                let b = Formula::replace(store, q, from, to);
                let ghost later = store@;
                let r = store.intern(Formula::Imp(a, b));
                proof {
                    lemma_replaced_extends(middle, store@, p, from, to, a);
                    lemma_replaced_extends(later, store@, q, from, to, b);
                }
                r
            },
            Formula::Or(ps) => {
                let ps = ps.clone();
                let qs = Formula::replace_members(store, &ps, from, to, Ghost(f));
                let ghost middle = store@;
                let ghost made = qs@;
                let r = store.intern(Formula::Or(qs));
                proof {
                    lemma_members_exchanged_extends(
                        middle,
                        store@,
                        f,
                        ps@,
                        made,
                        from, to,
                    );
                }
                r
            },
            Formula::And(ps) => {
                let ps = ps.clone();
                let qs = Formula::replace_members(store, &ps, from, to, Ghost(f));
                let ghost middle = store@;
                let ghost made = qs@;
                let r = store.intern(Formula::And(qs));
                proof {
                    lemma_members_exchanged_extends(
                        middle,
                        store@,
                        f,
                        ps@,
                        made,
                        from, to,
                    );
                }
                r
            },
            Formula::Eqv(ps) => {
                let ps = ps.clone();
                let qs = Formula::replace_members(store, &ps, from, to, Ghost(f));
                let ghost middle = store@;
                let ghost made = qs@;
                let r = store.intern(Formula::Eqv(qs));
                proof {
                    lemma_members_exchanged_extends(
                        middle,
                        store@,
                        f,
                        ps@,
                        made,
                        from, to,
                    );
                }
                r
            },
            Formula::All(p) => {
                let p = *p;
                let q = Formula::replace(store, p, from, to);
                let ghost middle = store@;
                let r = store.intern(Formula::All(q));
                proof {
                    lemma_replaced_extends(
                        middle,
                        store@,
                        p,
                        from, to,
                        q,
                    );
                }
                r
            },
            Formula::Ex(p) => {
                let p = *p;
                let q = Formula::replace(store, p, from, to);
                let ghost middle = store@;
                let r = store.intern(Formula::Ex(q));
                proof {
                    lemma_replaced_extends(
                        middle,
                        store@,
                        p,
                        from, to,
                        q,
                    );
                }
                r
            },
        }
    }

    /// The images of the members `ps` of the connective `f`, as a set.
    fn replace_members(
        store: &mut Store,
        ps: &IdSet,
        from: Id, to: Id,
        Ghost(f): Ghost<Id>,
    ) -> (qs: IdSet)
        requires
            old(store).wf(),
            f < old(store)@.formulae.len(),
            forall|i: int| 0 <= i < ps@.len() ==> ps@[i] < f,
            to < old(store)@.terms.len(),
        ensures
            final(store).wf(),
            final(store)@.extends(old(store)@),
            qs.wf(),
            forall|i: int| 0 <= i < qs@.len() ==> qs@[i] < final(store)@.formulae.len(),
            members_exchanged(final(store)@, f, ps@, qs@, from, to),
        decreases f, 0nat,
    {
        let n = ps.len();
        let mut qs = IdSet::empty();
        let mut i: usize = 0;
        proof {
            assert(ps@.subrange(0, 0) =~= Seq::<Id>::empty());
        }
        while i < n
            invariant
                n == ps@.len(),
                i <= n,
                to < store@.terms.len(),
                f < old(store)@.formulae.len(),
                store.wf(),
                store@.extends(old(store)@),
                forall|j: int| 0 <= j < ps@.len() ==> ps@[j] < f,
                qs.wf(),
                forall|z: Id| qs@.contains(z) ==> z < store@.formulae.len(),
                members_exchanged(store@, f, ps@.subrange(0, i as int), qs@, from, to),
            decreases n - i,
        {
            let ghost before = store@;
            let ghost sofar = qs@;
            let p = ps.at(i);
            let z = Formula::replace(store, p, from, to);
            qs = qs.with(z);
            proof {
                crate::collections::lemma_prefix_contains(ps@, i as int);
                lemma_members_exchanged_step(
                    before,
                    store@,
                    f,
                    ps@.subrange(0, i as int),
                    sofar,
                    ps@.subrange(0, i + 1),
                    qs@,
                    p,
                    z,
                    from, to,
                );
            }
            i += 1;
        }
        proof {
            assert(ps@.subrange(0, n as int) =~= ps@);
            assert forall|i: int| 0 <= i < qs@.len() implies qs@[i] < store@.formulae.len() by {
                assert(qs@.contains(qs@[i]));
            }
        }
        qs
    }
}

} // verus!
