//! Putting a function application in the place of a bound variable.
//!
//! Instantiating a quantified formula replaces the variable that the
//! quantifier binds. Below each further quantifier the variable has the next
//! higher index, and so have the variables that the application is made of.

use crate::collections::{Id, IdList, IdSet};
use crate::formula::{Formula, FormulaView};
use crate::store::{Store, StoreView};
use crate::symbol::Symbol;
use crate::term::{lemma_term_substituted_extends, term_substituted, Term};
use vstd::prelude::*;

verus! {

/// Whether `z` is one of `qs`.
pub open spec fn held(qs: Seq<Id>, z: Id) -> bool {
    qs.contains(z)
}

/// Whether every one of the terms `ts` has its image among `rs`, and every
/// one of `rs` is the image of one of `ts`.
pub open spec fn terms_mapped(
    s: StoreView,
    ts: Seq<Id>,
    rs: Seq<Id>,
    index: usize,
    symbol: Symbol,
    arity: usize,
) -> bool {
    &&& forall|t: Id| #[trigger]
        ts.contains(t) ==> exists|z: Id|
            rs.contains(z) && term_substituted(s, t, index, symbol, arity, z)
    &&& forall|z: Id| #[trigger]
        held(rs, z) ==> exists|t: Id|
            ts.contains(t) && term_substituted(s, t, index, symbol, arity, z)
}

/// Whether `rs` holds, place by place, what the substitution makes of `ts`.
pub open spec fn terms_substituted(
    s: StoreView,
    ts: Seq<Id>,
    index: usize,
    symbol: Symbol,
    arity: usize,
    rs: Seq<Id>,
) -> bool {
    rs.len() == ts.len() && forall|i: int|
        0 <= i < ts.len() ==> term_substituted(s, #[trigger] ts[i], index, symbol, arity, rs[i])
}

/// Whether every one of the members `ps` of the connective `f` has its
/// image among `qs`, and every one of `qs` is the image of one of `ps`.
pub open spec fn members_mapped(
    s: StoreView,
    f: Id,
    ps: Seq<Id>,
    qs: Seq<Id>,
    index: usize,
    symbol: Symbol,
    arity: usize,
) -> bool
    decreases f, 0nat,
{
    &&& forall|p: Id| #[trigger]
        ps.contains(p) ==> p < f && exists|z: Id|
            qs.contains(z) && substituted(s, p, index, symbol, arity, z)
    &&& forall|z: Id| #[trigger]
        held(qs, z) ==> exists|p: Id|
            ps.contains(p) && p < f && substituted(s, p, index, symbol, arity, z)
}

/// Whether `r` is the formula `f` with the variable that has the index
/// `index` at the top of `f` replaced by the application of `symbol` to the
/// `arity` variables from that index on, highest first.
pub open spec fn substituted(
    s: StoreView,
    f: Id,
    index: usize,
    symbol: Symbol,
    arity: usize,
    r: Id,
) -> bool
    decreases f, 1nat,
{
    f < s.formulae.len() && r < s.formulae.len() && match s.formulae[f as int] {
        FormulaView::T => r == f,
        FormulaView::F => r == f,
        FormulaView::Eq(ts) => match s.formulae[r as int] {
            FormulaView::Eq(rs) => terms_mapped(s, ts, rs, index, symbol, arity),
            _ => false,
        },
        FormulaView::Prd(p, ts) => match s.formulae[r as int] {
            FormulaView::Prd(q, rs) => q == p && terms_substituted(s, ts, index, symbol, arity, rs),
            _ => false,
        },
        FormulaView::Not(p) => match s.formulae[r as int] {
            FormulaView::Not(q) => p < f && substituted(s, p, index, symbol, arity, q),
            _ => false,
        },
        FormulaView::Imp(p, q) => match s.formulae[r as int] {
            FormulaView::Imp(a, b) => p < f && q < f && substituted(s, p, index, symbol, arity, a)
                && substituted(s, q, index, symbol, arity, b),
            _ => false,
        },
        FormulaView::Or(ps) => match s.formulae[r as int] {
            FormulaView::Or(qs) => members_mapped(s, f, ps, qs, index, symbol, arity),
            _ => false,
        },
        FormulaView::And(ps) => match s.formulae[r as int] {
            FormulaView::And(qs) => members_mapped(s, f, ps, qs, index, symbol, arity),
            _ => false,
        },
        FormulaView::Eqv(ps) => match s.formulae[r as int] {
            FormulaView::Eqv(qs) => members_mapped(s, f, ps, qs, index, symbol, arity),
            _ => false,
        },
        FormulaView::All(p) => match s.formulae[r as int] {
            FormulaView::All(q) => p < f && index < usize::MAX && substituted(
                s,
                p,
                (index + 1) as usize,
                symbol,
                arity,
                q,
            ),
            _ => false,
        },
        FormulaView::Ex(p) => match s.formulae[r as int] {
            FormulaView::Ex(q) => p < f && index < usize::MAX && substituted(
                s,
                p,
                (index + 1) as usize,
                symbol,
                arity,
                q,
            ),
            _ => false,
        },
    }
}

/// The images of terms in a store are their images in every store that
/// extends it.
pub proof fn lemma_terms_mapped_extends(
    old: StoreView,
    new: StoreView,
    ts: Seq<Id>,
    rs: Seq<Id>,
    index: usize,
    symbol: Symbol,
    arity: usize,
)
    requires
        new.extends(old),
        terms_mapped(old, ts, rs, index, symbol, arity),
    ensures
        terms_mapped(new, ts, rs, index, symbol, arity),
{
    assert forall|t: Id| #[trigger] ts.contains(t) implies exists|z: Id|
        rs.contains(z) && term_substituted(new, t, index, symbol, arity, z) by {
        let z = choose|z: Id| rs.contains(z) && term_substituted(old, t, index, symbol, arity, z);
        lemma_term_substituted_extends(old, new, t, index, symbol, arity, z);
    }
    assert forall|z: Id| #[trigger] held(rs, z) implies exists|t: Id|
        ts.contains(t) && term_substituted(new, t, index, symbol, arity, z) by {
        let t = choose|t: Id| ts.contains(t) && term_substituted(old, t, index, symbol, arity, z);
        lemma_term_substituted_extends(old, new, t, index, symbol, arity, z);
    }
}

/// A substitution that holds in a store holds in every store that extends
/// it.
pub proof fn lemma_substituted_extends(
    old: StoreView,
    new: StoreView,
    f: Id,
    index: usize,
    symbol: Symbol,
    arity: usize,
    r: Id,
)
    requires
        new.extends(old),
        substituted(old, f, index, symbol, arity, r),
    ensures
        substituted(new, f, index, symbol, arity, r),
    decreases f, 1nat,
{
    assert(new.formulae[f as int] == old.formulae[f as int]);
    assert(new.formulae[r as int] == old.formulae[r as int]);
    match old.formulae[f as int] {
        FormulaView::Eq(ts) => {
            match old.formulae[r as int] {
                FormulaView::Eq(rs) => {
                    lemma_terms_mapped_extends(old, new, ts, rs, index, symbol, arity);
                },
                _ => {},
            }
        },
        FormulaView::Prd(p, ts) => {
            match old.formulae[r as int] {
                FormulaView::Prd(q, rs) => {
                    assert forall|i: int| 0 <= i < ts.len() implies term_substituted(
                        new,
                        #[trigger] ts[i],
                        index,
                        symbol,
                        arity,
                        rs[i],
                    ) by {
                        lemma_term_substituted_extends(old, new, ts[i], index, symbol, arity, rs[i]);
                    }
                },
                _ => {},
            }
        },
        FormulaView::Not(p) => {
            match old.formulae[r as int] {
                FormulaView::Not(q) => {
                    lemma_substituted_extends(old, new, p, index, symbol, arity, q);
                },
                _ => {},
            }
        },
        FormulaView::Imp(p, q) => {
            match old.formulae[r as int] {
                FormulaView::Imp(a, b) => {
                    lemma_substituted_extends(old, new, p, index, symbol, arity, a);
                    lemma_substituted_extends(old, new, q, index, symbol, arity, b);
                },
                _ => {},
            }
        },
        FormulaView::Or(ps) => {
            match old.formulae[r as int] {
                FormulaView::Or(qs) => {
                    lemma_members_mapped_extends(old, new, f, ps, qs, index, symbol, arity);
                },
                _ => {},
            }
        },
        FormulaView::And(ps) => {
            match old.formulae[r as int] {
                FormulaView::And(qs) => {
                    lemma_members_mapped_extends(old, new, f, ps, qs, index, symbol, arity);
                },
                _ => {},
            }
        },
        FormulaView::Eqv(ps) => {
            match old.formulae[r as int] {
                FormulaView::Eqv(qs) => {
                    lemma_members_mapped_extends(old, new, f, ps, qs, index, symbol, arity);
                },
                _ => {},
            }
        },
        FormulaView::All(p) => {
            match old.formulae[r as int] {
                FormulaView::All(q) => {
                    lemma_substituted_extends(old, new, p, (index + 1) as usize, symbol, arity, q);
                },
                _ => {},
            }
        },
        FormulaView::Ex(p) => {
            match old.formulae[r as int] {
                FormulaView::Ex(q) => {
                    lemma_substituted_extends(old, new, p, (index + 1) as usize, symbol, arity, q);
                },
                _ => {},
            }
        },
        _ => {},
    }
}

/// The images of the members of a connective in a store are their images in
/// every store that extends it.
pub proof fn lemma_members_mapped_extends(
    old: StoreView,
    new: StoreView,
    f: Id,
    ps: Seq<Id>,
    qs: Seq<Id>,
    index: usize,
    symbol: Symbol,
    arity: usize,
)
    requires
        new.extends(old),
        members_mapped(old, f, ps, qs, index, symbol, arity),
    ensures
        members_mapped(new, f, ps, qs, index, symbol, arity),
    decreases f, 0nat,
{
    assert forall|p: Id| #[trigger] ps.contains(p) implies p < f && exists|z: Id|
        qs.contains(z) && substituted(new, p, index, symbol, arity, z) by {
        let z = choose|z: Id| qs.contains(z) && substituted(old, p, index, symbol, arity, z);
        lemma_substituted_extends(old, new, p, index, symbol, arity, z);
    }
    assert forall|z: Id| #[trigger] held(qs, z) implies exists|p: Id|
        ps.contains(p) && p < f && substituted(new, p, index, symbol, arity, z) by {
        let p = choose|p: Id|
            ps.contains(p) && p < f && substituted(old, p, index, symbol, arity, z);
        lemma_substituted_extends(old, new, p, index, symbol, arity, z);
    }
}

/// One more term and its image extend a set of terms and the set of their
/// images.
pub proof fn lemma_terms_mapped_step(
    old: StoreView,
    new: StoreView,
    ts: Seq<Id>,
    rs: Seq<Id>,
    next: Seq<Id>,
    out: Seq<Id>,
    t: Id,
    z: Id,
    index: usize,
    symbol: Symbol,
    arity: usize,
)
    requires
        new.extends(old),
        terms_mapped(old, ts, rs, index, symbol, arity),
        forall|x: Id| next.contains(x) <==> (ts.contains(x) || x == t),
        forall|x: Id| out.contains(x) <==> (rs.contains(x) || x == z),
        term_substituted(new, t, index, symbol, arity, z),
    ensures
        terms_mapped(new, next, out, index, symbol, arity),
{
    lemma_terms_mapped_extends(old, new, ts, rs, index, symbol, arity);
    assert forall|x: Id| #[trigger] next.contains(x) implies exists|y: Id|
        out.contains(y) && term_substituted(new, x, index, symbol, arity, y) by {
        if ts.contains(x) {
            let y = choose|y: Id|
                rs.contains(y) && term_substituted(new, x, index, symbol, arity, y);
            assert(out.contains(y));
        } else {
            assert(out.contains(z));
        }
    }
    assert forall|y: Id| #[trigger] held(out, y) implies exists|x: Id|
        next.contains(x) && term_substituted(new, x, index, symbol, arity, y) by {
        if rs.contains(y) {
            assert(held(rs, y));
            let x = choose|x: Id|
                ts.contains(x) && term_substituted(new, x, index, symbol, arity, y);
            assert(next.contains(x));
        } else {
            assert(next.contains(t));
        }
    }
}

/// One more member and its image extend a set of members and the set of
/// their images.
pub proof fn lemma_members_mapped_step(
    old: StoreView,
    new: StoreView,
    f: Id,
    ps: Seq<Id>,
    qs: Seq<Id>,
    next: Seq<Id>,
    out: Seq<Id>,
    p: Id,
    z: Id,
    index: usize,
    symbol: Symbol,
    arity: usize,
)
    requires
        new.extends(old),
        members_mapped(old, f, ps, qs, index, symbol, arity),
        forall|x: Id| next.contains(x) <==> (ps.contains(x) || x == p),
        forall|x: Id| out.contains(x) <==> (qs.contains(x) || x == z),
        p < f,
        substituted(new, p, index, symbol, arity, z),
    ensures
        members_mapped(new, f, next, out, index, symbol, arity),
{
    lemma_members_mapped_extends(old, new, f, ps, qs, index, symbol, arity);
    assert forall|x: Id| #[trigger] next.contains(x) implies x < f && exists|y: Id|
        out.contains(y) && substituted(new, x, index, symbol, arity, y) by {
        if ps.contains(x) {
            let y = choose|y: Id| qs.contains(y) && substituted(new, x, index, symbol, arity, y);
            assert(out.contains(y));
        } else {
            assert(out.contains(z));
        }
    }
    assert forall|y: Id| #[trigger] held(out, y) implies exists|x: Id|
        next.contains(x) && x < f && substituted(new, x, index, symbol, arity, y) by {
        if qs.contains(y) {
            assert(held(qs, y));
            let x = choose|x: Id|
                ps.contains(x) && x < f && substituted(new, x, index, symbol, arity, y);
            assert(next.contains(x));
        } else {
            assert(next.contains(p));
        }
    }
}

/// The images of the terms `ts`, as a set.
fn subst_term_set(store: &mut Store, ts: &IdSet, index: usize, symbol: Symbol, arity: usize) -> (rs:
    IdSet)
    requires
        old(store).wf(),
        forall|i: int| 0 <= i < ts@.len() ==> ts@[i] < old(store)@.terms.len(),
        index + arity <= usize::MAX,
    ensures
        final(store).wf(),
        final(store)@.extends(old(store)@),
        final(store)@.formulae == old(store)@.formulae,
        rs.wf(),
        forall|i: int| 0 <= i < rs@.len() ==> rs@[i] < final(store)@.terms.len(),
        terms_mapped(final(store)@, ts@, rs@, index, symbol, arity),
{
    let n = ts.len();
    let mut rs = IdSet::empty();
    let mut i: usize = 0;
    proof {
        assert(ts@.subrange(0, 0) =~= Seq::<Id>::empty());
    }
    while i < n
        invariant
            n == ts@.len(),
            i <= n,
            index + arity <= usize::MAX,
            store.wf(),
            store@.extends(old(store)@),
            store@.formulae == old(store)@.formulae,
            forall|j: int| 0 <= j < ts@.len() ==> ts@[j] < old(store)@.terms.len(),
            rs.wf(),
            forall|z: Id| rs@.contains(z) ==> z < store@.terms.len(),
            terms_mapped(store@, ts@.subrange(0, i as int), rs@, index, symbol, arity),
        decreases n - i,
    {
        let ghost before = store@;
        let ghost sofar = rs@;
        let t = ts.at(i);
        let z = Term::subst(store, t, index, symbol, arity);
        rs = rs.with(z);
        proof {
            crate::collections::lemma_prefix_contains(ts@, i as int);
            lemma_terms_mapped_step(
                before,
                store@,
                ts@.subrange(0, i as int),
                sofar,
                ts@.subrange(0, i + 1),
                rs@,
                t,
                z,
                index,
                symbol,
                arity,
            );
        }
        i += 1;
    }
    proof {
        assert(ts@.subrange(0, n as int) =~= ts@);
        assert forall|i: int| 0 <= i < rs@.len() implies rs@[i] < store@.terms.len() by {
            assert(rs@.contains(rs@[i]));
        }
    }
    rs
}

/// The images of the terms `ts`, place by place.
fn subst_term_list(store: &mut Store, ts: &IdList, index: usize, symbol: Symbol, arity: usize) -> (rs:
    IdList)
    requires
        old(store).wf(),
        forall|i: int| 0 <= i < ts@.len() ==> ts@[i] < old(store)@.terms.len(),
        index + arity <= usize::MAX,
    ensures
        final(store).wf(),
        final(store)@.extends(old(store)@),
        final(store)@.formulae == old(store)@.formulae,
        forall|i: int| 0 <= i < rs@.len() ==> rs@[i] < final(store)@.terms.len(),
        terms_substituted(final(store)@, ts@, index, symbol, arity, rs@),
{
    let n = ts.len();
    let mut rs = IdList::new();
    let mut i: usize = 0;
    while i < n
        invariant
            n == ts@.len(),
            i <= n,
            index + arity <= usize::MAX,
            store.wf(),
            store@.extends(old(store)@),
            store@.formulae == old(store)@.formulae,
            forall|j: int| 0 <= j < ts@.len() ==> ts@[j] < old(store)@.terms.len(),
            rs@.len() == i,
            forall|j: int|
                0 <= j < i ==> term_substituted(
                    store@,
                    #[trigger] ts@[j],
                    index,
                    symbol,
                    arity,
                    rs@[j],
                ),
        decreases n - i,
    {
        let ghost before = store@;
        let ghost sofar = rs@;
        let z = Term::subst(store, ts.at(i), index, symbol, arity);
        rs.push(z);
        proof {
            assert forall|j: int| 0 <= j < i + 1 implies term_substituted(
                store@,
                #[trigger] ts@[j],
                index,
                symbol,
                arity,
                rs@[j],
            ) by {
                if j < i {
                    lemma_term_substituted_extends(
                        before,
                        store@,
                        ts@[j],
                        index,
                        symbol,
                        arity,
                        sofar[j],
                    );
                }
            }
        }
        i += 1;
    }
    proof {
        assert forall|i: int| 0 <= i < rs@.len() implies rs@[i] < store@.terms.len() by {
            assert(term_substituted(store@, ts@[i], index, symbol, arity, rs@[i]));
        }
    }
    rs
}

impl Formula {
    /// The formula `f` with the variable that has the index `index` at the
    /// top of `f` replaced by the application of `symbol` to the `arity`
    /// variables from that index on, highest first.
    pub fn subst(store: &mut Store, f: Id, index: usize, symbol: Symbol, arity: usize) -> (r: Id)
        requires
            old(store).wf(),
            f < old(store)@.formulae.len(),
            index + arity + f <= usize::MAX,
        ensures
            final(store).wf(),
            final(store)@.extends(old(store)@),
            substituted(final(store)@, f, index, symbol, arity, r),
        decreases f, 1nat,
    {
        let ghost before = store@;
        proof {
            assert(before.formula_ok(before.formulae[f as int], f as int));
        }
        match store.formula(f) {
            Formula::T | Formula::F => f,
            Formula::Eq(ts) => {
                let ts = ts.clone();
                let rs = subst_term_set(store, &ts, index, symbol, arity);
                let ghost middle = store@;
                let ghost made = rs@;
                let r = store.intern(Formula::Eq(rs));
                proof {
                    lemma_terms_mapped_extends(middle, store@, ts@, made, index, symbol, arity);
                }
                r
            },
            Formula::Prd(p, ts) => {
                let p = *p;
                let ts = ts.clone();
                let rs = subst_term_list(store, &ts, index, symbol, arity);
                let ghost middle = store@;
                let ghost made = rs@;
                let r = store.intern(Formula::Prd(p, rs));
                proof {
                    assert forall|i: int| 0 <= i < ts@.len() implies term_substituted(
                        store@,
                        #[trigger] ts@[i],
                        index,
                        symbol,
                        arity,
                        made[i],
                    ) by {
                        lemma_term_substituted_extends(
                            middle,
                            store@,
                            ts@[i],
                            index,
                            symbol,
                            arity,
                            made[i],
                        );
                    }
                }
                r
            },
            Formula::Not(p) => {
                let p = *p;
                let q = Formula::subst(store, p, index, symbol, arity);
                let ghost middle = store@;
                let r = store.intern(Formula::Not(q));
                proof {
                    lemma_substituted_extends(middle, store@, p, index, symbol, arity, q);
                }
                r
            },
            Formula::Imp(p, q) => {
                let p = *p;
                let q = *q;
                let a = Formula::subst(store, p, index, symbol, arity);
                let ghost middle = store@;
                let b = Formula::subst(store, q, index, symbol, arity);
                let ghost later = store@;
                let r = store.intern(Formula::Imp(a, b));
                proof {
                    lemma_substituted_extends(middle, store@, p, index, symbol, arity, a);
                    lemma_substituted_extends(later, store@, q, index, symbol, arity, b);
                }
                r
            },
            Formula::Or(ps) => {
                let ps = ps.clone();
                let qs = Formula::subst_members(store, &ps, index, symbol, arity, Ghost(f));
                let ghost middle = store@;
                let ghost made = qs@;
                let r = store.intern(Formula::Or(qs));
                proof {
                    lemma_members_mapped_extends(
                        middle,
                        store@,
                        f,
                        ps@,
                        made,
                        index,
                        symbol,
                        arity,
                    );
                }
                r
            },
            Formula::And(ps) => {
                let ps = ps.clone();
                let qs = Formula::subst_members(store, &ps, index, symbol, arity, Ghost(f));
                let ghost middle = store@;
                let ghost made = qs@;
                let r = store.intern(Formula::And(qs));
                proof {
                    lemma_members_mapped_extends(
                        middle,
                        store@,
                        f,
                        ps@,
                        made,
                        index,
                        symbol,
                        arity,
                    );
                }
                r
            },
            Formula::Eqv(ps) => {
                let ps = ps.clone();
                let qs = Formula::subst_members(store, &ps, index, symbol, arity, Ghost(f));
                let ghost middle = store@;
                let ghost made = qs@;
                let r = store.intern(Formula::Eqv(qs));
                proof {
                    lemma_members_mapped_extends(
                        middle,
                        store@,
                        f,
                        ps@,
                        made,
                        index,
                        symbol,
                        arity,
                    );
                }
                r
            },
            Formula::All(p) => {
                let p = *p;
                let q = Formula::subst(store, p, index + 1, symbol, arity);
                let ghost middle = store@;
                let r = store.intern(Formula::All(q));
                proof {
                    lemma_substituted_extends(
                        middle,
                        store@,
                        p,
                        (index + 1) as usize,
                        symbol,
                        arity,
                        q,
                    );
                }
                r
            },
            Formula::Ex(p) => {
                let p = *p;
                let q = Formula::subst(store, p, index + 1, symbol, arity);
                let ghost middle = store@;
                let r = store.intern(Formula::Ex(q));
                proof {
                    lemma_substituted_extends(
                        middle,
                        store@,
                        p,
                        (index + 1) as usize,
                        symbol,
                        arity,
                        q,
                    );
                }
                r
            },
        }
    }

    /// The images of the members `ps` of the connective `f`, as a set.
    fn subst_members(
        store: &mut Store,
        ps: &IdSet,
        index: usize,
        symbol: Symbol,
        arity: usize,
        Ghost(f): Ghost<Id>,
    ) -> (qs: IdSet)
        requires
            old(store).wf(),
            f < old(store)@.formulae.len(),
            forall|i: int| 0 <= i < ps@.len() ==> ps@[i] < f,
            index + arity + f <= usize::MAX,
        ensures
            final(store).wf(),
            final(store)@.extends(old(store)@),
            qs.wf(),
            forall|i: int| 0 <= i < qs@.len() ==> qs@[i] < final(store)@.formulae.len(),
            members_mapped(final(store)@, f, ps@, qs@, index, symbol, arity),
        decreases f, 0nat,
    {
        let n = ps.len();
        let mut qs = IdSet::empty();
        let mut i: usize = 0;
        proof {
            assert(ps@.subrange(0, 0) =~= Seq::<Id>::empty());
        }
        while i < n
            invariant
                n == ps@.len(),
                i <= n,
                index + arity + f <= usize::MAX,
                f < old(store)@.formulae.len(),
                store.wf(),
                store@.extends(old(store)@),
                forall|j: int| 0 <= j < ps@.len() ==> ps@[j] < f,
                qs.wf(),
                forall|z: Id| qs@.contains(z) ==> z < store@.formulae.len(),
                members_mapped(store@, f, ps@.subrange(0, i as int), qs@, index, symbol, arity),
            decreases n - i,
        {
            let ghost before = store@;
            let ghost sofar = qs@;
            let p = ps.at(i);
            let z = Formula::subst(store, p, index, symbol, arity);
            qs = qs.with(z);
            proof {
                crate::collections::lemma_prefix_contains(ps@, i as int);
                lemma_members_mapped_step(
                    before,
                    store@,
                    f,
                    ps@.subrange(0, i as int),
                    sofar,
                    ps@.subrange(0, i + 1),
                    qs@,
                    p,
                    z,
                    index,
                    symbol,
                    arity,
                );
            }
            i += 1;
        }
        proof {
            assert(ps@.subrange(0, n as int) =~= ps@);
            assert forall|i: int| 0 <= i < qs@.len() implies qs@[i] < store@.formulae.len() by {
                assert(qs@.contains(qs@[i]));
            }
        }
        qs
    }
}

} // verus!
