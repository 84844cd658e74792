//! Taking a quantifier away that binds nothing.
//!
//! Where the variable of a quantifier does not occur in its body, the
//! quantifier says nothing. Without it, each variable of the body that is
//! bound further out is one quantifier nearer to its own, and so has the
//! next lower index.

use crate::collections::{Id, IdList, IdSet};
use crate::formula::{Formula, FormulaView};
use crate::collections::ascending;
use crate::measure::{
    lemma_ascending_distinct, lemma_sum_dominated, lemma_weight_extends, lemma_weight_unfold, sum,
};
use crate::simplification::lighter::lemma_members_valid;
use crate::simplification::simplifier::{image_of, origin};
use crate::store::{Store, StoreView};
use crate::substitution::held;
use crate::term::{Term, TermView};
use vstd::prelude::*;

verus! {

/// Whether the variable with the index `depth` does not occur in the term.
pub open spec fn term_free(s: StoreView, t: Id, depth: usize) -> bool
    decreases t,
{
    t < s.terms.len() && match s.terms[t as int] {
        TermView::Var(n) => n != depth,
        TermView::Fn(_, ts) => forall|i: int|
            0 <= i < ts.len() ==> (#[trigger] ts[i]) < t && term_free(s, ts[i], depth),
    }
}

/// Whether the variable with the index `depth` does not occur in any of
/// the terms.
pub open spec fn terms_free(s: StoreView, ts: Seq<Id>, depth: usize) -> bool {
    forall|i: int| 0 <= i < ts.len() ==> term_free(s, #[trigger] ts[i], depth)
}

/// Whether the variable that has the index `depth` at the top of `f` does
/// not occur in `f`.
pub open spec fn var_free(s: StoreView, f: Id, depth: usize) -> bool
    decreases f,
{
    f < s.formulae.len() && match s.formulae[f as int] {
        FormulaView::T => true,
        FormulaView::F => true,
        FormulaView::Eq(ts) => terms_free(s, ts, depth),
        FormulaView::Prd(_, ts) => terms_free(s, ts, depth),
        FormulaView::Not(p) => p < f && var_free(s, p, depth),
        FormulaView::Imp(p, q) => p < f && q < f && var_free(s, p, depth) && var_free(s, q, depth),
        FormulaView::Or(ps) => forall|i: int|
            0 <= i < ps.len() ==> (#[trigger] ps[i]) < f && var_free(s, ps[i], depth),
        FormulaView::And(ps) => forall|i: int|
            0 <= i < ps.len() ==> (#[trigger] ps[i]) < f && var_free(s, ps[i], depth),
        FormulaView::Eqv(ps) => forall|i: int|
            0 <= i < ps.len() ==> (#[trigger] ps[i]) < f && var_free(s, ps[i], depth),
        FormulaView::All(p) => p < f && depth < usize::MAX && var_free(s, p, (depth + 1) as usize),
        FormulaView::Ex(p) => p < f && depth < usize::MAX && var_free(s, p, (depth + 1) as usize),
    }
}

/// Whether a variable occurs in a term does not depend on what else the
/// store holds.
pub proof fn lemma_term_free_extends(old: StoreView, new: StoreView, t: Id, depth: usize)
    requires
        old.wf(),
        new.extends(old),
        t < old.terms.len(),
    ensures
        term_free(new, t, depth) == term_free(old, t, depth),
    decreases t,
{
    assert(new.terms[t as int] == old.terms[t as int]);
    assert(old.term_ok(old.terms[t as int], t as int));
    match old.terms[t as int] {
        TermView::Fn(_, ts) => {
            assert forall|i: int| 0 <= i < ts.len() implies (#[trigger] ts[i]) < t && term_free(
                new,
                ts[i],
                depth,
            ) == term_free(old, ts[i], depth) by {
                lemma_term_free_extends(old, new, ts[i], depth);
            }
        },
        _ => {},
    }
}

/// Whether a variable occurs in a formula does not depend on what else the
/// store holds.
pub proof fn lemma_var_free_extends(old: StoreView, new: StoreView, f: Id, depth: usize)
    requires
        old.wf(),
        new.extends(old),
        f < old.formulae.len(),
    ensures
        var_free(new, f, depth) == var_free(old, f, depth),
    decreases f,
{
    assert(new.formulae[f as int] == old.formulae[f as int]);
    assert(old.formula_ok(old.formulae[f as int], f as int));
    match old.formulae[f as int] {
        FormulaView::Eq(ts) => {
            assert forall|i: int| 0 <= i < ts.len() implies term_free(new, #[trigger] ts[i], depth)
                == term_free(old, ts[i], depth) by {
                lemma_term_free_extends(old, new, ts[i], depth);
            }
        },
        FormulaView::Prd(_, ts) => {
            assert forall|i: int| 0 <= i < ts.len() implies term_free(new, #[trigger] ts[i], depth)
                == term_free(old, ts[i], depth) by {
                lemma_term_free_extends(old, new, ts[i], depth);
            }
        },
        FormulaView::Not(p) => {
            lemma_var_free_extends(old, new, p, depth);
        },
        FormulaView::Imp(p, q) => {
            lemma_var_free_extends(old, new, p, depth);
            lemma_var_free_extends(old, new, q, depth);
        },
        FormulaView::Or(ps) => {
            assert forall|i: int| 0 <= i < ps.len() implies (#[trigger] ps[i]) < f && var_free(
                new,
                ps[i],
                depth,
            ) == var_free(old, ps[i], depth) by {
                lemma_var_free_extends(old, new, ps[i], depth);
            }
        },
        FormulaView::And(ps) => {
            assert forall|i: int| 0 <= i < ps.len() implies (#[trigger] ps[i]) < f && var_free(
                new,
                ps[i],
                depth,
            ) == var_free(old, ps[i], depth) by {
                lemma_var_free_extends(old, new, ps[i], depth);
            }
        },
        FormulaView::Eqv(ps) => {
            assert forall|i: int| 0 <= i < ps.len() implies (#[trigger] ps[i]) < f && var_free(
                new,
                ps[i],
                depth,
            ) == var_free(old, ps[i], depth) by {
                lemma_var_free_extends(old, new, ps[i], depth);
            }
        },
        FormulaView::All(p) => {
            if depth < usize::MAX {
                lemma_var_free_extends(old, new, p, (depth + 1) as usize);
            }
        },
        FormulaView::Ex(p) => {
            if depth < usize::MAX {
                lemma_var_free_extends(old, new, p, (depth + 1) as usize);
            }
        },
        _ => {},
    }
}

/// Whether `r` is the term `t` with every variable above `depth` numbered
/// one lower.
pub open spec fn term_lowered(s: StoreView, t: Id, depth: usize, r: Id) -> bool
    decreases t,
{
    t < s.terms.len() && r < s.terms.len() && match s.terms[t as int] {
        TermView::Var(n) => if n > depth {
            s.terms[r as int] == TermView::Var((n - 1) as usize)
        } else {
            r == t
        },
        TermView::Fn(f, ts) => match s.terms[r as int] {
            TermView::Fn(g, rs) => g == f && rs.len() == ts.len() && forall|i: int|
                0 <= i < ts.len() ==> (#[trigger] ts[i]) < t && term_lowered(
                    s,
                    ts[i],
                    depth,
                    rs[i],
                ),
            _ => false,
        },
    }
}

/// A lowering that holds in a store holds in every store that extends it.
pub proof fn lemma_term_lowered_extends(old: StoreView, new: StoreView, t: Id, depth: usize, r: Id)
    requires
        new.extends(old),
        term_lowered(old, t, depth, r),
    ensures
        term_lowered(new, t, depth, r),
    decreases t,
{
    assert(new.terms[t as int] == old.terms[t as int]);
    assert(new.terms[r as int] == old.terms[r as int]);
    match old.terms[t as int] {
        TermView::Var(_) => {},
        TermView::Fn(f, ts) => {
            match old.terms[r as int] {
                TermView::Fn(g, rs) => {
                    assert forall|i: int| 0 <= i < ts.len() implies (#[trigger] ts[i]) < t
                        && term_lowered(new, ts[i], depth, rs[i]) by {
                        lemma_term_lowered_extends(old, new, ts[i], depth, rs[i]);
                    }
                },
                _ => {},
            }
        },
    }
}

impl Term {
    /// Whether the variable with the index `depth` does not occur in the
    /// term `t`.
    pub fn is_free(store: &Store, t: Id, depth: usize) -> (yes: bool)
        requires
            store.wf(),
            t < store@.terms.len(),
        ensures
            yes == term_free(store@, t, depth),
        decreases t,
    {
        proof {
            assert(store@.term_ok(store@.terms[t as int], t as int));
        }
        match store.term(t) {
            Term::Var(n) => *n != depth,
            Term::Fn(f, ts) => {
                let n = ts.len();
                let mut i: usize = 0;
                while i < n
                    invariant
                        n == ts@.len(),
                        i <= n,
                        store.wf(),
                        t < store@.terms.len(),
                        store@.terms[t as int] == TermView::Fn(*f, ts@),
                        forall|k: int| 0 <= k < ts@.len() ==> ts@[k] < t,
                        forall|k: int| 0 <= k < i ==> term_free(store@, #[trigger] ts@[k], depth),
                    decreases n - i,
                {
                    if !Term::is_free(store, ts.at(i), depth) {
                        proof {
                            assert(!term_free(store@, ts@[i as int], depth));
                        }
                        return false;
                    }
                    i += 1;
                }
                true
            },
        }
    }

    /// The term `t` with every variable above `depth` numbered one lower.
    pub fn lower(store: &mut Store, t: Id, depth: usize) -> (r: Id)
        requires
            old(store).wf(),
            t < old(store)@.terms.len(),
        ensures
            final(store).wf(),
            final(store)@.extends(old(store)@),
            final(store)@.formulae == old(store)@.formulae,
            term_lowered(final(store)@, t, depth, r),
        decreases t,
    {
        let ghost before = store@;
        proof {
            assert(before.term_ok(before.terms[t as int], t as int));
        }
        match store.term(t) {
            Term::Var(n) => {
                if *n > depth {
                    store.intern_term(Term::Var(*n - 1))
                } else {
                    t
                }
            },
            Term::Fn(f, ts) => {
                let f = *f;
                let ts = ts.clone();
                let n = ts.len();
                let mut rs = IdList::new();
                let mut i: usize = 0;
                while i < n
                    invariant
                        n == ts@.len(),
                        i <= n,
                        store.wf(),
                        store@.extends(before),
                        store@.formulae == before.formulae,
                        before.terms[t as int] == TermView::Fn(f, ts@),
                        t < before.terms.len(),
                        forall|j: int| 0 <= j < ts@.len() ==> ts@[j] < t,
                        rs@.len() == i,
                        forall|j: int|
                            0 <= j < i ==> term_lowered(store@, #[trigger] ts@[j], depth, rs@[j]),
                    decreases n - i,
                {
                    let ghost earlier = store@;
                    let ghost sofar = rs@;
                    let x = Term::lower(store, ts.at(i), depth);
                    rs.push(x);
                    proof {
                        assert forall|j: int| 0 <= j < i + 1 implies term_lowered(
                            store@,
                            #[trigger] ts@[j],
                            depth,
                            rs@[j],
                        ) by {
                            if j < i {
                                lemma_term_lowered_extends(
                                    earlier,
                                    store@,
                                    ts@[j],
                                    depth,
                                    sofar[j],
                                );
                            }
                        }
                    }
                    i += 1;
                }
                let ghost middle = store@;
                let ghost made = rs@;
                proof {
                    assert forall|j: int| 0 <= j < made.len() implies made[j]
                        < middle.terms.len() by {
                        assert(term_lowered(middle, ts@[j], depth, made[j]));
                    }
                }
                let r = store.intern_term(Term::Fn(f, rs));
                proof {
                    let s = store@;
                    assert forall|j: int| 0 <= j < ts@.len() implies (#[trigger] ts@[j]) < t
                        && term_lowered(s, ts@[j], depth, made[j]) by {
                        lemma_term_lowered_extends(middle, s, ts@[j], depth, made[j]);
                    }
                }
                r
            },
        }
    }
}



/// Whether every one of the terms `ts` has its image among `rs`, and every
/// one of `rs` is the image of one of `ts`.
pub open spec fn terms_moved(
    s: StoreView,
    ts: Seq<Id>,
    rs: Seq<Id>,
    depth: usize,
) -> bool {
    &&& forall|t: Id| #[trigger]
        ts.contains(t) ==> exists|z: Id|
            rs.contains(z) && term_lowered(s, t, depth, z)
    &&& forall|z: Id| #[trigger]
        held(rs, z) ==> exists|t: Id|
            ts.contains(t) && term_lowered(s, t, depth, z)
}

/// Whether `rs` holds, place by place, what the lowering makes of `ts`.
pub open spec fn terms_lowered(
    s: StoreView,
    ts: Seq<Id>,
    depth: usize,
    rs: Seq<Id>,
) -> bool {
    rs.len() == ts.len() && forall|i: int|
        0 <= i < ts.len() ==> term_lowered(s, #[trigger] ts[i], depth, rs[i])
}

/// Whether every one of the members `ps` of the connective `f` has its
/// image among `qs`, and every one of `qs` is the image of one of `ps`.
pub open spec fn members_moved(
    s: StoreView,
    f: Id,
    ps: Seq<Id>,
    qs: Seq<Id>,
    depth: usize,
) -> bool
    decreases f, 0nat,
{
    &&& forall|p: Id| #[trigger]
        ps.contains(p) ==> p < f && exists|z: Id|
            qs.contains(z) && lowered(s, p, depth, z)
    &&& forall|z: Id| #[trigger]
        held(qs, z) ==> exists|p: Id|
            ps.contains(p) && p < f && lowered(s, p, depth, z)
}

/// Whether `r` is the formula `f` with every variable that is bound
/// outside more than `depth` quantifiers around `f` numbered one lower.
pub open spec fn lowered(
    s: StoreView,
    f: Id,
    depth: usize,
    r: Id,
) -> bool
    decreases f, 1nat,
{
    f < s.formulae.len() && r < s.formulae.len() && match s.formulae[f as int] {
        FormulaView::T => r == f,
        FormulaView::F => r == f,
        FormulaView::Eq(ts) => match s.formulae[r as int] {
            FormulaView::Eq(rs) => terms_moved(s, ts, rs, depth),
            _ => false,
        },
        FormulaView::Prd(p, ts) => match s.formulae[r as int] {
            FormulaView::Prd(q, rs) => q == p && terms_lowered(s, ts, depth, rs),
            _ => false,
        },
        FormulaView::Not(p) => match s.formulae[r as int] {
            FormulaView::Not(q) => p < f && lowered(s, p, depth, q),
            _ => false,
        },
        FormulaView::Imp(p, q) => match s.formulae[r as int] {
            FormulaView::Imp(a, b) => p < f && q < f && lowered(s, p, depth, a)
                && lowered(s, q, depth, b),
            _ => false,
        },
        FormulaView::Or(ps) => match s.formulae[r as int] {
            FormulaView::Or(qs) => members_moved(s, f, ps, qs, depth),
            _ => false,
        },
        FormulaView::And(ps) => match s.formulae[r as int] {
            FormulaView::And(qs) => members_moved(s, f, ps, qs, depth),
            _ => false,
        },
        FormulaView::Eqv(ps) => match s.formulae[r as int] {
            FormulaView::Eqv(qs) => members_moved(s, f, ps, qs, depth),
            _ => false,
        },
        FormulaView::All(p) => match s.formulae[r as int] {
            FormulaView::All(q) => p < f && depth < usize::MAX && lowered(
                s,
                p,
                (depth + 1) as usize,
                q,
            ),
            _ => false,
        },
        FormulaView::Ex(p) => match s.formulae[r as int] {
            FormulaView::Ex(q) => p < f && depth < usize::MAX && lowered(
                s,
                p,
                (depth + 1) as usize,
                q,
            ),
            _ => false,
        },
    }
}

/// The images of terms in a store are their images in every store that
/// extends it.
pub proof fn lemma_terms_moved_extends(
    old: StoreView,
    new: StoreView,
    ts: Seq<Id>,
    rs: Seq<Id>,
    depth: usize,
)
    requires
        new.extends(old),
        terms_moved(old, ts, rs, depth),
    ensures
        terms_moved(new, ts, rs, depth),
{
    assert forall|t: Id| #[trigger] ts.contains(t) implies exists|z: Id|
        rs.contains(z) && term_lowered(new, t, depth, z) by {
        let z = choose|z: Id| rs.contains(z) && term_lowered(old, t, depth, z);
        lemma_term_lowered_extends(old, new, t, depth, z);
    }
    assert forall|z: Id| #[trigger] held(rs, z) implies exists|t: Id|
        ts.contains(t) && term_lowered(new, t, depth, z) by {
        let t = choose|t: Id| ts.contains(t) && term_lowered(old, t, depth, z);
        lemma_term_lowered_extends(old, new, t, depth, z);
    }
}

/// A lowering that holds in a store holds in every store that extends
/// it.
pub proof fn lemma_lowered_extends(
    old: StoreView,
    new: StoreView,
    f: Id,
    depth: usize,
    r: Id,
)
    requires
        new.extends(old),
        lowered(old, f, depth, r),
    ensures
        lowered(new, f, depth, r),
    decreases f, 1nat,
{
    assert(new.formulae[f as int] == old.formulae[f as int]);
    assert(new.formulae[r as int] == old.formulae[r as int]);
    match old.formulae[f as int] {
        FormulaView::Eq(ts) => {
            match old.formulae[r as int] {
                FormulaView::Eq(rs) => {
                    lemma_terms_moved_extends(old, new, ts, rs, depth);
                },
                _ => {},
            }
        },
        FormulaView::Prd(p, ts) => {
            match old.formulae[r as int] {
                FormulaView::Prd(q, rs) => {
                    assert forall|i: int| 0 <= i < ts.len() implies term_lowered(
                        new,
                        #[trigger] ts[i],
                        depth,
                        rs[i],
                    ) by {
                        lemma_term_lowered_extends(old, new, ts[i], depth, rs[i]);
                    }
                },
                _ => {},
            }
        },
        FormulaView::Not(p) => {
            match old.formulae[r as int] {
                FormulaView::Not(q) => {
                    lemma_lowered_extends(old, new, p, depth, q);
                },
                _ => {},
            }
        },
        FormulaView::Imp(p, q) => {
            match old.formulae[r as int] {
                FormulaView::Imp(a, b) => {
                    lemma_lowered_extends(old, new, p, depth, a);
                    lemma_lowered_extends(old, new, q, depth, b);
                },
                _ => {},
            }
        },
        FormulaView::Or(ps) => {
            match old.formulae[r as int] {
                FormulaView::Or(qs) => {
                    lemma_members_moved_extends(old, new, f, ps, qs, depth);
                },
                _ => {},
            }
        },
        FormulaView::And(ps) => {
            match old.formulae[r as int] {
                FormulaView::And(qs) => {
                    lemma_members_moved_extends(old, new, f, ps, qs, depth);
                },
                _ => {},
            }
        },
        FormulaView::Eqv(ps) => {
            match old.formulae[r as int] {
                FormulaView::Eqv(qs) => {
                    lemma_members_moved_extends(old, new, f, ps, qs, depth);
                },
                _ => {},
            }
        },
        FormulaView::All(p) => {
            match old.formulae[r as int] {
                FormulaView::All(q) => {
                    lemma_lowered_extends(old, new, p, (depth + 1) as usize, q);
                },
                _ => {},
            }
        },
        FormulaView::Ex(p) => {
            match old.formulae[r as int] {
                FormulaView::Ex(q) => {
                    lemma_lowered_extends(old, new, p, (depth + 1) as usize, q);
                },
                _ => {},
            }
        },
        _ => {},
    }
}

/// The images of the members of a connective in a store are their images in
/// every store that extends it.
pub proof fn lemma_members_moved_extends(
    old: StoreView,
    new: StoreView,
    f: Id,
    ps: Seq<Id>,
    qs: Seq<Id>,
    depth: usize,
)
    requires
        new.extends(old),
        members_moved(old, f, ps, qs, depth),
    ensures
        members_moved(new, f, ps, qs, depth),
    decreases f, 0nat,
{
    assert forall|p: Id| #[trigger] ps.contains(p) implies p < f && exists|z: Id|
        qs.contains(z) && lowered(new, p, depth, z) by {
        let z = choose|z: Id| qs.contains(z) && lowered(old, p, depth, z);
        lemma_lowered_extends(old, new, p, depth, z);
    }
    assert forall|z: Id| #[trigger] held(qs, z) implies exists|p: Id|
        ps.contains(p) && p < f && lowered(new, p, depth, z) by {
        let p = choose|p: Id|
            ps.contains(p) && p < f && lowered(old, p, depth, z);
        lemma_lowered_extends(old, new, p, depth, z);
    }
}

/// One more term and its image extend a set of terms and the set of their
/// images.
pub proof fn lemma_terms_moved_step(
    old: StoreView,
    new: StoreView,
    ts: Seq<Id>,
    rs: Seq<Id>,
    next: Seq<Id>,
    out: Seq<Id>,
    t: Id,
    z: Id,
    depth: usize,
)
    requires
        new.extends(old),
        terms_moved(old, ts, rs, depth),
        forall|x: Id| next.contains(x) <==> (ts.contains(x) || x == t),
        forall|x: Id| out.contains(x) <==> (rs.contains(x) || x == z),
        term_lowered(new, t, depth, z),
    ensures
        terms_moved(new, next, out, depth),
{
    lemma_terms_moved_extends(old, new, ts, rs, depth);
    assert forall|x: Id| #[trigger] next.contains(x) implies exists|y: Id|
        out.contains(y) && term_lowered(new, x, depth, y) by {
        if ts.contains(x) {
            let y = choose|y: Id|
                rs.contains(y) && term_lowered(new, x, depth, y);
            assert(out.contains(y));
        } else {
            assert(out.contains(z));
        }
    }
    assert forall|y: Id| #[trigger] held(out, y) implies exists|x: Id|
        next.contains(x) && term_lowered(new, x, depth, y) by {
        if rs.contains(y) {
            assert(held(rs, y));
            let x = choose|x: Id|
                ts.contains(x) && term_lowered(new, x, depth, y);
            assert(next.contains(x));
        } else {
            assert(next.contains(t));
        }
    }
}

/// The images of the terms `ts`, as a set.
fn lower_term_set(store: &mut Store, ts: &IdSet, depth: usize) -> (rs:
    IdSet)
    requires
        old(store).wf(),
        forall|i: int| 0 <= i < ts@.len() ==> ts@[i] < old(store)@.terms.len(),
    ensures
        final(store).wf(),
        final(store)@.extends(old(store)@),
        final(store)@.formulae == old(store)@.formulae,
        rs.wf(),
        forall|i: int| 0 <= i < rs@.len() ==> rs@[i] < final(store)@.terms.len(),
        terms_moved(final(store)@, ts@, rs@, depth),
{
    let n = ts.len();
    let mut rs = IdSet::empty();
    let mut i: usize = 0;
    proof {
        assert(ts@.subrange(0, 0) =~= Seq::<Id>::empty());
    }
    while i < n
        invariant
            n == ts@.len(),
            i <= n,
            store.wf(),
            store@.extends(old(store)@),
            store@.formulae == old(store)@.formulae,
            forall|j: int| 0 <= j < ts@.len() ==> ts@[j] < old(store)@.terms.len(),
            rs.wf(),
            forall|z: Id| rs@.contains(z) ==> z < store@.terms.len(),
            terms_moved(store@, ts@.subrange(0, i as int), rs@, depth),
        decreases n - i,
    {
        let ghost before = store@;
        let ghost sofar = rs@;
        let t = ts.at(i);
        let z = Term::lower(store, t, depth);
        rs = rs.with(z);
        proof {
            crate::collections::lemma_prefix_contains(ts@, i as int);
            lemma_terms_moved_step(
                before,
                store@,
                ts@.subrange(0, i as int),
                sofar,
                ts@.subrange(0, i + 1),
                rs@,
                t,
                z,
                depth,
            );
        }
        i += 1;
    }
    proof {
        assert(ts@.subrange(0, n as int) =~= ts@);
        assert forall|i: int| 0 <= i < rs@.len() implies rs@[i] < store@.terms.len() by {
            assert(rs@.contains(rs@[i]));
        }
    }
    rs
}

/// The images of the terms `ts`, place by place.
fn lower_term_list(store: &mut Store, ts: &IdList, depth: usize) -> (rs:
    IdList)
    requires
        old(store).wf(),
        forall|i: int| 0 <= i < ts@.len() ==> ts@[i] < old(store)@.terms.len(),
    ensures
        final(store).wf(),
        final(store)@.extends(old(store)@),
        final(store)@.formulae == old(store)@.formulae,
        forall|i: int| 0 <= i < rs@.len() ==> rs@[i] < final(store)@.terms.len(),
        terms_lowered(final(store)@, ts@, depth, rs@),
{
    let n = ts.len();
    let mut rs = IdList::new();
    let mut i: usize = 0;
    while i < n
        invariant
            n == ts@.len(),
            i <= n,
            store.wf(),
            store@.extends(old(store)@),
            store@.formulae == old(store)@.formulae,
            forall|j: int| 0 <= j < ts@.len() ==> ts@[j] < old(store)@.terms.len(),
            rs@.len() == i,
            forall|j: int|
                0 <= j < i ==> term_lowered(
                    store@,
                    #[trigger] ts@[j],
                    depth,
                    rs@[j],
                ),
        decreases n - i,
    {
        let ghost before = store@;
        let ghost sofar = rs@;
        let z = Term::lower(store, ts.at(i), depth);
        rs.push(z);
        proof {
            assert forall|j: int| 0 <= j < i + 1 implies term_lowered(
                store@,
                #[trigger] ts@[j],
                depth,
                rs@[j],
            ) by {
                if j < i {
                    lemma_term_lowered_extends(
                        before,
                        store@,
                        ts@[j],
                        depth,
                        sofar[j],
                    );
                }
            }
        }
        i += 1;
    }
    proof {
        assert forall|i: int| 0 <= i < rs@.len() implies rs@[i] < store@.terms.len() by {
            assert(term_lowered(store@, ts@[i], depth, rs@[i]));
        }
    }
    rs
}


/// Whether `to` gives every member of `ps` a formula of the store that
/// weighs no more than the member.
pub open spec fn lessens(s: StoreView, ps: Seq<Id>, to: Map<Id, Id>) -> bool {
    forall|p: Id| #[trigger]
        ps.contains(p) ==> to.contains_key(p) && to[p] < s.formulae.len() && s.weight(to[p])
            <= s.weight(p)
}

/// The image of the members of a connective under a map that lessens them
/// weighs no more than the members.
pub proof fn lemma_image_lessened(
    s: StoreView,
    ps: Seq<Id>,
    qs: Seq<Id>,
    to: Map<Id, Id>,
    extra: nat,
)
    requires
        ascending(ps),
        ascending(qs),
        lessens(s, ps, to),
        image_of(qs, ps, to),
    ensures
        sum(qs, s.member_weight(extra)) <= sum(ps, s.member_weight(extra)),
{
    lemma_ascending_distinct(ps);
    lemma_ascending_distinct(qs);
    let val = s.member_weight(extra);
    let h = |z: Id| origin(ps, to, z);
    assert forall|z: Id| qs.contains(z) implies ps.contains(h(z)) && val(z) <= val(h(z)) by {
        let p = choose|p: Id| ps.contains(p) && to[p] == z;
        assert(ps.contains(h(z)) && to[h(z)] == z);
    }
    assert forall|a: Id, b: Id| qs.contains(a) && qs.contains(b) && h(a) == h(b) implies a
        == b by {
        let p = choose|p: Id| ps.contains(p) && to[p] == a;
        let q = choose|q: Id| ps.contains(q) && to[q] == b;
        assert(to[h(a)] == a);
        assert(to[h(b)] == b);
    }
    lemma_sum_dominated(qs, val, ps, val, h);
}

/// A connective of the lowered members of a connective weighs no more than
/// the connective.
pub proof fn lemma_members_lessened(
    m: StoreView,
    s: StoreView,
    f: Id,
    r: Id,
    ps: Seq<Id>,
    qs: Seq<Id>,
    to: Map<Id, Id>,
)
    requires
        m.wf(),
        s.wf(),
        s.extends(m),
        f < m.formulae.len(),
        (m.formulae[f as int] == FormulaView::And(ps) && s.is(r, FormulaView::And(qs))) || (
        m.formulae[f as int] == FormulaView::Or(ps) && s.is(r, FormulaView::Or(qs))) || (
        m.formulae[f as int] == FormulaView::Eqv(ps) && s.is(r, FormulaView::Eqv(qs))),
        lessens(m, ps, to),
        image_of(qs, ps, to),
    ensures
        s.weight(r) <= s.weight(f),
{
    let extra: nat = if m.formulae[f as int] is Eqv { 2 } else { 0 };
    lemma_weight_unfold(s, f);
    lemma_weight_unfold(s, r);
    lemma_members_valid(m, f, ps);
    lemma_members_valid(s, r, qs);
    assert forall|p: Id| #[trigger] ps.contains(p) implies to.contains_key(p) && to[p]
        < s.formulae.len() && s.weight(to[p]) <= s.weight(p) by {
        lemma_weight_extends(m, s, p);
        lemma_weight_extends(m, s, to[p]);
    }
    lemma_image_lessened(s, ps, qs, to, extra);
}

/// Whether `to` gives every member of `ps`, all below `f`, what the
/// lowering makes of it.
pub open spec fn lowers(s: StoreView, f: Id, ps: Seq<Id>, to: Map<Id, Id>, depth: usize) -> bool {
    forall|p: Id| #[trigger] ps.contains(p) ==> p < f && lowered(s, p, depth, to[p])
}

/// One more member and what it became extend a map that lowers the
/// members before it.
pub proof fn lemma_lowers_step(
    before: StoreView,
    after: StoreView,
    f: Id,
    ps: Seq<Id>,
    i: int,
    earlier: Map<Id, Id>,
    to: Map<Id, Id>,
    z: Id,
    depth: usize,
)
    requires
        after.extends(before),
        0 <= i < ps.len(),
        ps[i] < f,
        lowers(before, f, ps.subrange(0, i), earlier, depth),
        to == earlier.insert(ps[i], z),
        lowered(after, ps[i], depth, z),
    ensures
        lowers(after, f, ps.subrange(0, i + 1), to, depth),
{
    let prefix = ps.subrange(0, i);
    let next = ps.subrange(0, i + 1);
    crate::collections::lemma_prefix_contains(ps, i);
    assert forall|p: Id| #[trigger] next.contains(p) implies p < f && lowered(
        after,
        p,
        depth,
        to[p],
    ) by {
        if p != ps[i] {
            assert(prefix.contains(p));
            lemma_lowered_extends(before, after, p, depth, earlier[p]);
        }
    }
}

/// The image of the members under a map that lowers them holds what the
/// lowering makes of the members.
pub proof fn lemma_moved_from_map(
    s: StoreView,
    f: Id,
    ps: Seq<Id>,
    qs: Seq<Id>,
    to: Map<Id, Id>,
    depth: usize,
)
    requires
        lowers(s, f, ps, to, depth),
        forall|z: Id| qs.contains(z) ==> exists|p: Id| ps.contains(p) && to[p] == z,
        forall|p: Id| ps.contains(p) ==> qs.contains(#[trigger] to[p]),
    ensures
        members_moved(s, f, ps, qs, depth),
{
    assert forall|p: Id| #[trigger] ps.contains(p) implies p < f && exists|z: Id|
        qs.contains(z) && lowered(s, p, depth, z) by {
        assert(qs.contains(to[p]) && lowered(s, p, depth, to[p]));
    }
    assert forall|z: Id| #[trigger] held(qs, z) implies exists|p: Id|
        ps.contains(p) && p < f && lowered(s, p, depth, z) by {
        let p = choose|p: Id| ps.contains(p) && to[p] == z;
        assert(ps.contains(p) && p < f && lowered(s, p, depth, z));
    }
}

/// One more member and what it became extend a map that lessens the
/// members before it, and the image of those members.
pub proof fn lemma_lessened_step(
    before: StoreView,
    after: StoreView,
    ps: Seq<Id>,
    i: int,
    sofar: Seq<Id>,
    qs: Seq<Id>,
    earlier: Map<Id, Id>,
    to: Map<Id, Id>,
    z: Id,
)
    requires
        after.extends(before),
        ascending(ps),
        0 <= i < ps.len(),
        forall|j: int| 0 <= j < ps.len() ==> ps[j] < before.formulae.len(),
        lessens(before, ps.subrange(0, i), earlier),
        image_of(sofar, ps.subrange(0, i), earlier),
        forall|x: Id| qs.contains(x) <==> (sofar.contains(x) || x == z),
        to == earlier.insert(ps[i], z),
        z < after.formulae.len(),
        after.weight(z) <= after.weight(ps[i]),
    ensures
        lessens(after, ps.subrange(0, i + 1), to),
        image_of(qs, ps.subrange(0, i + 1), to),
{
    let prefix = ps.subrange(0, i);
    let next = ps.subrange(0, i + 1);
    let p = ps[i];
    crate::collections::lemma_prefix_contains(ps, i);
    assert(next[i] == p);
    assert(next.contains(p));
    assert forall|x: Id| #[trigger] next.contains(x) implies to.contains_key(x) && to[x]
        < after.formulae.len() && after.weight(to[x]) <= after.weight(x) by {
        if x != p {
            assert(prefix.contains(x));
            let k = choose|k: int| 0 <= k < prefix.len() && prefix[k] == x;
            assert(ps[k] < before.formulae.len());
            lemma_weight_extends(before, after, x);
            lemma_weight_extends(before, after, earlier[x]);
        }
    }
    assert forall|y: Id| qs.contains(y) <==> exists|x: Id| next.contains(x) && to[x] == y by {
        if qs.contains(y) {
            if y == z {
                assert(next.contains(p) && to[p] == y);
            } else {
                assert(sofar.contains(y));
                let x = choose|x: Id| prefix.contains(x) && earlier[x] == y;
                assert(x != p) by {
                    if x == p {
                        let k = choose|k: int| 0 <= k < prefix.len() && prefix[k] == x;
                        assert(ps[k] < ps[i]);
                    }
                }
                assert(next.contains(x) && to[x] == y);
            }
        }
        if exists|x: Id| next.contains(x) && to[x] == y {
            let x = choose|x: Id| next.contains(x) && to[x] == y;
            if x != p {
                assert(prefix.contains(x) && earlier[x] == y);
            }
        }
    }
}

impl Formula {
    /// Whether the variable that has the index `depth` at the top of `f`
    /// does not occur in `f`.
    pub fn is_var_free(store: &Store, f: Id, depth: usize) -> (yes: bool)
        requires
            store.wf(),
            f < store@.formulae.len(),
        ensures
            yes == var_free(store@, f, depth),
        decreases f, 1nat,
    {
        proof {
            assert(store@.formula_ok(store@.formulae[f as int], f as int));
        }
        match store.formula(f) {
            Formula::T => true,
            Formula::F => true,
            Formula::Eq(ts) => Formula::terms_are_free(store, ts.as_list(), depth),
            Formula::Prd(_, ts) => Formula::terms_are_free(store, ts, depth),
            Formula::Not(p) => Formula::is_var_free(store, *p, depth),
            Formula::Imp(p, q) => Formula::is_var_free(store, *p, depth) && Formula::is_var_free(
                store,
                *q,
                depth,
            ),
            Formula::Or(ps) => Formula::members_are_free(store, ps.as_list(), depth, Ghost(f)),
            Formula::And(ps) => Formula::members_are_free(store, ps.as_list(), depth, Ghost(f)),
            Formula::Eqv(ps) => Formula::members_are_free(store, ps.as_list(), depth, Ghost(f)),
            Formula::All(p) => depth < usize::MAX && Formula::is_var_free(store, *p, depth + 1),
            Formula::Ex(p) => depth < usize::MAX && Formula::is_var_free(store, *p, depth + 1),
        }
    }

    /// Whether the variable with the index `depth` occurs in none of the
    /// terms.
    fn terms_are_free(store: &Store, ts: &IdList, depth: usize) -> (yes: bool)
        requires
            store.wf(),
            forall|k: int| 0 <= k < ts@.len() ==> ts@[k] < store@.terms.len(),
        ensures
            yes == terms_free(store@, ts@, depth),
    {
        let n = ts.len();
        let mut i: usize = 0;
        while i < n
            invariant
                n == ts@.len(),
                i <= n,
                store.wf(),
                forall|k: int| 0 <= k < ts@.len() ==> ts@[k] < store@.terms.len(),
                forall|k: int| 0 <= k < i ==> term_free(store@, #[trigger] ts@[k], depth),
            decreases n - i,
        {
            if !Term::is_free(store, ts.at(i), depth) {
                proof {
                    assert(!term_free(store@, ts@[i as int], depth));
                }
                return false;
            }
            i += 1;
        }
        true
    }

    /// Whether the variable occurs in none of the members `ps` of the
    /// connective `f`.
    fn members_are_free(store: &Store, ps: &IdList, depth: usize, Ghost(f): Ghost<Id>) -> (yes: bool)
        requires
            store.wf(),
            f < store@.formulae.len(),
            forall|k: int| 0 <= k < ps@.len() ==> ps@[k] < f,
        ensures
            yes == forall|i: int|
                0 <= i < ps@.len() ==> (#[trigger] ps@[i]) < f && var_free(store@, ps@[i], depth),
        decreases f, 0nat,
    {
        let n = ps.len();
        let mut i: usize = 0;
        while i < n
            invariant
                n == ps@.len(),
                i <= n,
                store.wf(),
                f < store@.formulae.len(),
                forall|k: int| 0 <= k < ps@.len() ==> ps@[k] < f,
                forall|k: int| 0 <= k < i ==> var_free(store@, #[trigger] ps@[k], depth),
            decreases n - i,
        {
            if !Formula::is_var_free(store, ps.at(i), depth) {
                proof {
                    assert(!var_free(store@, ps@[i as int], depth));
                }
                return false;
            }
            i += 1;
        }
        true
    }

    /// The formula `f` with every variable that is bound outside more than
    /// `depth` quantifiers around `f` numbered one lower. It weighs no more
    /// than `f`.
    pub fn lower(store: &mut Store, f: Id, depth: usize) -> (r: Id)
        requires
            old(store).wf(),
            f < old(store)@.formulae.len(),
            depth + f < usize::MAX,
        ensures
            final(store).wf(),
            final(store)@.extends(old(store)@),
            lowered(final(store)@, f, depth, r),
            final(store)@.weight(r) <= final(store)@.weight(f),
        decreases f, 1nat,
    {
        let ghost before = store@;
        proof {
            assert(before.formula_ok(before.formulae[f as int], f as int));
            lemma_weight_unfold(before, f);
        }
        match store.formula(f) {
            Formula::T => f,
            Formula::F => f,
            Formula::Eq(ts) => {
                let ts = ts.clone();
                let rs = lower_term_set(store, &ts, depth);
                let ghost middle = store@;
                let ghost made = rs@;
                let r = store.intern(Formula::Eq(rs));
                proof {
                    lemma_terms_moved_extends(middle, store@, ts@, made, depth);
                    lemma_weight_unfold(store@, f);
                    lemma_weight_unfold(store@, r);
                }
                r
            },
            Formula::Prd(p, ts) => {
                let p = *p;
                let ts = ts.clone();
                let rs = lower_term_list(store, &ts, depth);
                let ghost middle = store@;
                let ghost made = rs@;
                let r = store.intern(Formula::Prd(p, rs));
                proof {
                    assert forall|i: int| 0 <= i < ts@.len() implies term_lowered(
                        store@,
                        #[trigger] ts@[i],
                        depth,
                        made[i],
                    ) by {
                        lemma_term_lowered_extends(middle, store@, ts@[i], depth, made[i]);
                    }
                    lemma_weight_unfold(store@, f);
                    lemma_weight_unfold(store@, r);
                }
                r
            },
            Formula::Not(p) => {
                let p = *p;
                let q = Formula::lower(store, p, depth);
                let ghost middle = store@;
                let r = store.intern(Formula::Not(q));
                proof {
                    lemma_lowered_extends(middle, store@, p, depth, q);
                    lemma_weight_extends(middle, store@, p);
                    lemma_weight_extends(middle, store@, q);
                    lemma_weight_unfold(store@, f);
                    lemma_weight_unfold(store@, r);
                }
                r
            },
            Formula::Imp(p, q) => {
                let p = *p;
                let q = *q;
                let a = Formula::lower(store, p, depth);
                let ghost middle = store@;
                let b = Formula::lower(store, q, depth);
                let ghost later = store@;
                let r = store.intern(Formula::Imp(a, b));
                proof {
                    lemma_lowered_extends(middle, store@, p, depth, a);
                    lemma_lowered_extends(later, store@, q, depth, b);
                    lemma_weight_extends(middle, store@, p);
                    lemma_weight_extends(middle, store@, a);
                    lemma_weight_extends(later, store@, q);
                    lemma_weight_extends(later, store@, b);
                    lemma_weight_unfold(store@, f);
                    lemma_weight_unfold(store@, r);
                }
                r
            },
            Formula::Or(ps) => {
                let ps = ps.clone();
                let (qs, Ghost(to)) = Formula::lower_members(store, &ps, depth, Ghost(f));
                let ghost middle = store@;
                let ghost made = qs@;
                let r = store.intern(Formula::Or(qs));
                proof {
                    lemma_members_moved_extends(middle, store@, f, ps@, made, depth);
                    lemma_members_lessened(middle, store@, f, r, ps@, made, to);
                }
                r
            },
            Formula::And(ps) => {
                let ps = ps.clone();
                let (qs, Ghost(to)) = Formula::lower_members(store, &ps, depth, Ghost(f));
                let ghost middle = store@;
                let ghost made = qs@;
                let r = store.intern(Formula::And(qs));
                proof {
                    lemma_members_moved_extends(middle, store@, f, ps@, made, depth);
                    lemma_members_lessened(middle, store@, f, r, ps@, made, to);
                }
                r
            },
            Formula::Eqv(ps) => {
                let ps = ps.clone();
                let (qs, Ghost(to)) = Formula::lower_members(store, &ps, depth, Ghost(f));
                let ghost middle = store@;
                let ghost made = qs@;
                let r = store.intern(Formula::Eqv(qs));
                proof {
                    lemma_members_moved_extends(middle, store@, f, ps@, made, depth);
                    lemma_members_lessened(middle, store@, f, r, ps@, made, to);
                }
                r
            },
            Formula::All(p) => {
                let p = *p;
                let q = Formula::lower(store, p, depth + 1);
                let ghost middle = store@;
                let r = store.intern(Formula::All(q));
                proof {
                    lemma_lowered_extends(middle, store@, p, (depth + 1) as usize, q);
                    lemma_weight_extends(middle, store@, p);
                    lemma_weight_extends(middle, store@, q);
                    lemma_weight_unfold(store@, f);
                    lemma_weight_unfold(store@, r);
                }
                r
            },
            Formula::Ex(p) => {
                let p = *p;
                let q = Formula::lower(store, p, depth + 1);
                let ghost middle = store@;
                let r = store.intern(Formula::Ex(q));
                proof {
                    lemma_lowered_extends(middle, store@, p, (depth + 1) as usize, q);
                    lemma_weight_extends(middle, store@, p);
                    lemma_weight_extends(middle, store@, q);
                    lemma_weight_unfold(store@, f);
                    lemma_weight_unfold(store@, r);
                }
                r
            },
        }
    }

    /// The lowered members `ps` of the connective `f`, as a set, with the
    /// map from each member to what it became.
    fn lower_members(store: &mut Store, ps: &IdSet, depth: usize, Ghost(f): Ghost<Id>) -> (out: (
        IdSet,
        Ghost<Map<Id, Id>>,
    ))
        requires
            old(store).wf(),
            ps.wf(),
            f < old(store)@.formulae.len(),
            forall|i: int| 0 <= i < ps@.len() ==> ps@[i] < f,
            depth + f < usize::MAX,
        ensures
            final(store).wf(),
            final(store)@.extends(old(store)@),
            out.0.wf(),
            forall|i: int| 0 <= i < out.0@.len() ==> out.0@[i] < final(store)@.formulae.len(),
            members_moved(final(store)@, f, ps@, out.0@, depth),
            lessens(final(store)@, ps@, out.1@),
            image_of(out.0@, ps@, out.1@),
        decreases f, 0nat,
    {
        let n = ps.len();
        let mut qs = IdSet::empty();
        let ghost mut to: Map<Id, Id> = Map::empty();
        let mut i: usize = 0;
        proof {
            assert(ps@.subrange(0, 0) =~= Seq::<Id>::empty());
        }
        while i < n
            invariant
                n == ps@.len(),
                i <= n,
                depth + f < usize::MAX,
                f < old(store)@.formulae.len(),
                store.wf(),
                old(store)@.wf(),
                ps.wf(),
                store@.extends(old(store)@),
                forall|j: int| 0 <= j < ps@.len() ==> ps@[j] < f,
                qs.wf(),
                forall|z: Id| qs@.contains(z) ==> z < store@.formulae.len(),
                lowers(store@, f, ps@.subrange(0, i as int), to, depth),
                lessens(store@, ps@.subrange(0, i as int), to),
                image_of(qs@, ps@.subrange(0, i as int), to),
            decreases n - i,
        {
            let ghost before = store@;
            let ghost sofar = qs@;
            let ghost earlier = to;
            let ghost prefix = ps@.subrange(0, i as int);
            let ghost next = ps@.subrange(0, i + 1);
            let p = ps.at(i);
            let z = Formula::lower(store, p, depth);
            qs = qs.with(z);
            proof {
                to = earlier.insert(p, z);
                let after = store@;
                assert forall|j: int| 0 <= j < ps@.len() implies ps@[j]
                    < before.formulae.len() by {}
                lemma_lessened_step(before, after, ps@, i as int, sofar, qs@, earlier, to, z);
                lemma_lowers_step(before, after, f, ps@, i as int, earlier, to, z, depth);
            }
            i += 1;
        }
        proof {
            assert(ps@.subrange(0, n as int) =~= ps@);
            assert forall|i: int| 0 <= i < qs@.len() implies qs@[i] < store@.formulae.len() by {
                assert(qs@.contains(qs@[i]));
            }
            lemma_moved_from_map(store@, f, ps@, qs@, to, depth);
        }
        (qs, Ghost(to))
    }
}

/// Whether no variable of the term is bound outside more than `depth`
/// quantifiers around it.
pub open spec fn term_stable(s: StoreView, t: Id, depth: usize) -> bool
    decreases t,
{
    t < s.terms.len() && match s.terms[t as int] {
        TermView::Var(n) => n <= depth,
        TermView::Fn(_, ts) => forall|i: int|
            0 <= i < ts.len() ==> (#[trigger] ts[i]) < t && term_stable(s, ts[i], depth),
    }
}

/// Whether no variable of the formula `f` is bound outside more than
/// `depth` quantifiers around `f`.
pub open spec fn stable(s: StoreView, f: Id, depth: usize) -> bool
    decreases f,
{
    f < s.formulae.len() && match s.formulae[f as int] {
        FormulaView::T => true,
        FormulaView::F => true,
        FormulaView::Eq(ts) => forall|i: int|
            0 <= i < ts.len() ==> term_stable(s, #[trigger] ts[i], depth),
        FormulaView::Prd(_, ts) => forall|i: int|
            0 <= i < ts.len() ==> term_stable(s, #[trigger] ts[i], depth),
        FormulaView::Not(p) => p < f && stable(s, p, depth),
        FormulaView::Imp(p, q) => p < f && q < f && stable(s, p, depth) && stable(s, q, depth),
        FormulaView::Or(ps) => forall|i: int|
            0 <= i < ps.len() ==> (#[trigger] ps[i]) < f && stable(s, ps[i], depth),
        FormulaView::And(ps) => forall|i: int|
            0 <= i < ps.len() ==> (#[trigger] ps[i]) < f && stable(s, ps[i], depth),
        FormulaView::Eqv(ps) => forall|i: int|
            0 <= i < ps.len() ==> (#[trigger] ps[i]) < f && stable(s, ps[i], depth),
        FormulaView::All(p) => p < f && depth < usize::MAX && stable(s, p, (depth + 1) as usize),
        FormulaView::Ex(p) => p < f && depth < usize::MAX && stable(s, p, (depth + 1) as usize),
    }
}

/// Lowering leaves a stable term as it is.
pub proof fn lemma_term_stable_lowered(s: StoreView, t: Id, depth: usize)
    requires
        term_stable(s, t, depth),
    ensures
        term_lowered(s, t, depth, t),
    decreases t,
{
    match s.terms[t as int] {
        TermView::Var(_) => {},
        TermView::Fn(_, ts) => {
            assert forall|i: int| 0 <= i < ts.len() implies (#[trigger] ts[i]) < t && term_lowered(
                s,
                ts[i],
                depth,
                ts[i],
            ) by {
                lemma_term_stable_lowered(s, ts[i], depth);
            }
        },
    }
}

/// Lowering leaves a stable formula as it is.
pub proof fn lemma_stable_lowered(s: StoreView, f: Id, depth: usize)
    requires
        stable(s, f, depth),
    ensures
        lowered(s, f, depth, f),
    decreases f,
{
    match s.formulae[f as int] {
        FormulaView::Eq(ts) => {
            assert forall|t: Id| #[trigger] ts.contains(t) implies exists|z: Id|
                ts.contains(z) && term_lowered(s, t, depth, z) by {
                let i = choose|i: int| 0 <= i < ts.len() && ts[i] == t;
                lemma_term_stable_lowered(s, ts[i], depth);
            }
            assert forall|z: Id| #[trigger] held(ts, z) implies exists|t: Id|
                ts.contains(t) && term_lowered(s, t, depth, z) by {
                let i = choose|i: int| 0 <= i < ts.len() && ts[i] == z;
                lemma_term_stable_lowered(s, ts[i], depth);
            }
        },
        FormulaView::Prd(_, ts) => {
            assert forall|i: int| 0 <= i < ts.len() implies term_lowered(
                s,
                #[trigger] ts[i],
                depth,
                ts[i],
            ) by {
                lemma_term_stable_lowered(s, ts[i], depth);
            }
        },
        FormulaView::Not(p) => {
            lemma_stable_lowered(s, p, depth);
        },
        FormulaView::Imp(p, q) => {
            lemma_stable_lowered(s, p, depth);
            lemma_stable_lowered(s, q, depth);
        },
        FormulaView::Or(ps) => {
            lemma_members_stable_lowered(s, f, ps, depth);
        },
        FormulaView::And(ps) => {
            lemma_members_stable_lowered(s, f, ps, depth);
        },
        FormulaView::Eqv(ps) => {
            lemma_members_stable_lowered(s, f, ps, depth);
        },
        FormulaView::All(p) => {
            lemma_stable_lowered(s, p, (depth + 1) as usize);
        },
        FormulaView::Ex(p) => {
            lemma_stable_lowered(s, p, (depth + 1) as usize);
        },
        _ => {},
    }
}

/// Lowering leaves stable members as they are.
pub proof fn lemma_members_stable_lowered(s: StoreView, f: Id, ps: Seq<Id>, depth: usize)
    requires
        forall|i: int| 0 <= i < ps.len() ==> (#[trigger] ps[i]) < f && stable(s, ps[i], depth),
    ensures
        members_moved(s, f, ps, ps, depth),
    decreases f, 0nat,
{
    assert forall|p: Id| #[trigger] ps.contains(p) implies p < f && exists|z: Id|
        ps.contains(z) && lowered(s, p, depth, z) by {
        let i = choose|i: int| 0 <= i < ps.len() && ps[i] == p;
        assert(ps[i] < f);
        lemma_stable_lowered(s, p, depth);
    }
    assert forall|z: Id| #[trigger] held(ps, z) implies exists|p: Id|
        ps.contains(p) && p < f && lowered(s, p, depth, z) by {
        let i = choose|i: int| 0 <= i < ps.len() && ps[i] == z;
        assert(ps[i] < f);
        lemma_stable_lowered(s, z, depth);
    }
}

/// Whether a term is stable does not depend on what else the store holds.
pub proof fn lemma_term_stable_extends(old: StoreView, new: StoreView, t: Id, depth: usize)
    requires
        old.wf(),
        new.extends(old),
        t < old.terms.len(),
    ensures
        term_stable(new, t, depth) == term_stable(old, t, depth),
    decreases t,
{
    assert(new.terms[t as int] == old.terms[t as int]);
    assert(old.term_ok(old.terms[t as int], t as int));
    match old.terms[t as int] {
        TermView::Fn(_, ts) => {
            assert forall|i: int| 0 <= i < ts.len() implies (#[trigger] ts[i]) < t && term_stable(
                new,
                ts[i],
                depth,
            ) == term_stable(old, ts[i], depth) by {
                lemma_term_stable_extends(old, new, ts[i], depth);
            }
        },
        _ => {},
    }
}

/// Whether a formula is stable does not depend on what else the store
/// holds.
pub proof fn lemma_stable_extends(old: StoreView, new: StoreView, f: Id, depth: usize)
    requires
        old.wf(),
        new.extends(old),
        f < old.formulae.len(),
    ensures
        stable(new, f, depth) == stable(old, f, depth),
    decreases f,
{
    assert(new.formulae[f as int] == old.formulae[f as int]);
    assert(old.formula_ok(old.formulae[f as int], f as int));
    match old.formulae[f as int] {
        FormulaView::Eq(ts) => {
            assert forall|i: int| 0 <= i < ts.len() implies term_stable(new, #[trigger] ts[i], depth)
                == term_stable(old, ts[i], depth) by {
                lemma_term_stable_extends(old, new, ts[i], depth);
            }
        },
        FormulaView::Prd(_, ts) => {
            assert forall|i: int| 0 <= i < ts.len() implies term_stable(new, #[trigger] ts[i], depth)
                == term_stable(old, ts[i], depth) by {
                lemma_term_stable_extends(old, new, ts[i], depth);
            }
        },
        FormulaView::Not(p) => {
            lemma_stable_extends(old, new, p, depth);
        },
        FormulaView::Imp(p, q) => {
            lemma_stable_extends(old, new, p, depth);
            lemma_stable_extends(old, new, q, depth);
        },
        FormulaView::Or(ps) => {
            assert forall|i: int| 0 <= i < ps.len() implies (#[trigger] ps[i]) < f && stable(
                new,
                ps[i],
                depth,
            ) == stable(old, ps[i], depth) by {
                lemma_stable_extends(old, new, ps[i], depth);
            }
        },
        FormulaView::And(ps) => {
            assert forall|i: int| 0 <= i < ps.len() implies (#[trigger] ps[i]) < f && stable(
                new,
                ps[i],
                depth,
            ) == stable(old, ps[i], depth) by {
                lemma_stable_extends(old, new, ps[i], depth);
            }
        },
        FormulaView::Eqv(ps) => {
            assert forall|i: int| 0 <= i < ps.len() implies (#[trigger] ps[i]) < f && stable(
                new,
                ps[i],
                depth,
            ) == stable(old, ps[i], depth) by {
                lemma_stable_extends(old, new, ps[i], depth);
            }
        },
        FormulaView::All(p) => {
            if depth < usize::MAX {
                lemma_stable_extends(old, new, p, (depth + 1) as usize);
            }
        },
        FormulaView::Ex(p) => {
            if depth < usize::MAX {
                lemma_stable_extends(old, new, p, (depth + 1) as usize);
            }
        },
        _ => {},
    }
}

impl Term {
    /// Whether no variable of the term `t` is bound outside more than
    /// `depth` quantifiers around it.
    pub fn is_stable(store: &Store, t: Id, depth: usize) -> (yes: bool)
        requires
            store.wf(),
            t < store@.terms.len(),
        ensures
            yes == term_stable(store@, t, depth),
        decreases t,
    {
        proof {
            assert(store@.term_ok(store@.terms[t as int], t as int));
        }
        match store.term(t) {
            Term::Var(n) => *n <= depth,
            Term::Fn(f, ts) => {
                let n = ts.len();
                let mut i: usize = 0;
                while i < n
                    invariant
                        n == ts@.len(),
                        i <= n,
                        store.wf(),
                        t < store@.terms.len(),
                        store@.terms[t as int] == TermView::Fn(*f, ts@),
                        forall|k: int| 0 <= k < ts@.len() ==> ts@[k] < t,
                        forall|k: int| 0 <= k < i ==> term_stable(store@, #[trigger] ts@[k], depth),
                    decreases n - i,
                {
                    if !Term::is_stable(store, ts.at(i), depth) {
                        proof {
                            assert(!term_stable(store@, ts@[i as int], depth));
                        }
                        return false;
                    }
                    i += 1;
                }
                true
            },
        }
    }
}

impl Formula {
    /// Whether no variable of the formula `f` is bound outside more than
    /// `depth` quantifiers around `f`.
    pub fn is_stable(store: &Store, f: Id, depth: usize) -> (yes: bool)
        requires
            store.wf(),
            f < store@.formulae.len(),
        ensures
            yes == stable(store@, f, depth),
        decreases f, 1nat,
    {
        proof {
            assert(store@.formula_ok(store@.formulae[f as int], f as int));
        }
        match store.formula(f) {
            Formula::T => true,
            Formula::F => true,
            Formula::Eq(ts) => Formula::terms_are_stable(store, ts.as_list(), depth),
            Formula::Prd(_, ts) => Formula::terms_are_stable(store, ts, depth),
            Formula::Not(p) => Formula::is_stable(store, *p, depth),
            Formula::Imp(p, q) => Formula::is_stable(store, *p, depth) && Formula::is_stable(
                store,
                *q,
                depth,
            ),
            Formula::Or(ps) => Formula::members_are_stable(store, ps.as_list(), depth, Ghost(f)),
            Formula::And(ps) => Formula::members_are_stable(store, ps.as_list(), depth, Ghost(f)),
            Formula::Eqv(ps) => Formula::members_are_stable(store, ps.as_list(), depth, Ghost(f)),
            Formula::All(p) => depth < usize::MAX && Formula::is_stable(store, *p, depth + 1),
            Formula::Ex(p) => depth < usize::MAX && Formula::is_stable(store, *p, depth + 1),
        }
    }

    /// Whether each of the terms is stable.
    fn terms_are_stable(store: &Store, ts: &IdList, depth: usize) -> (yes: bool)
        requires
            store.wf(),
            forall|k: int| 0 <= k < ts@.len() ==> ts@[k] < store@.terms.len(),
        ensures
            yes == forall|i: int|
                0 <= i < ts@.len() ==> term_stable(store@, #[trigger] ts@[i], depth),
    {
        let n = ts.len();
        let mut i: usize = 0;
        while i < n
            invariant
                n == ts@.len(),
                i <= n,
                store.wf(),
                forall|k: int| 0 <= k < ts@.len() ==> ts@[k] < store@.terms.len(),
                forall|k: int| 0 <= k < i ==> term_stable(store@, #[trigger] ts@[k], depth),
            decreases n - i,
        {
            if !Term::is_stable(store, ts.at(i), depth) {
                proof {
                    assert(!term_stable(store@, ts@[i as int], depth));
                }
                return false;
            }
            i += 1;
        }
        true
    }

    /// Whether each of the members `ps` of the connective `f` is stable.
    fn members_are_stable(store: &Store, ps: &IdList, depth: usize, Ghost(f): Ghost<Id>) -> (yes: bool)
        requires
            store.wf(),
            f < store@.formulae.len(),
            forall|k: int| 0 <= k < ps@.len() ==> ps@[k] < f,
        ensures
            yes == forall|i: int|
                0 <= i < ps@.len() ==> (#[trigger] ps@[i]) < f && stable(store@, ps@[i], depth),
        decreases f, 0nat,
    {
        let n = ps.len();
        let mut i: usize = 0;
        while i < n
            invariant
                n == ps@.len(),
                i <= n,
                store.wf(),
                f < store@.formulae.len(),
                forall|k: int| 0 <= k < ps@.len() ==> ps@[k] < f,
                forall|k: int| 0 <= k < i ==> stable(store@, #[trigger] ps@[k], depth),
            decreases n - i,
        {
            if !Formula::is_stable(store, ps.at(i), depth) {
                proof {
                    assert(!stable(store@, ps@[i as int], depth));
                }
                return false;
            }
            i += 1;
        }
        true
    }
}

/// Whether `f` is a quantified formula in whose body the bound variable
/// does not occur.
pub open spec fn vacuous(s: StoreView, f: Id) -> bool {
    match s.formulae[f as int] {
        FormulaView::All(p) => var_free(s, p, 0),
        FormulaView::Ex(p) => var_free(s, p, 0),
        _ => false,
    }
}

/// Whether a quantifier binds nothing does not depend on what else the
/// store holds.
pub proof fn lemma_vacuous_extends(old: StoreView, new: StoreView, f: Id)
    requires
        old.wf(),
        new.extends(old),
        f < old.formulae.len(),
    ensures
        vacuous(new, f) == vacuous(old, f),
{
    assert(new.formulae[f as int] == old.formulae[f as int]);
    assert(old.formula_ok(old.formulae[f as int], f as int));
    match old.formulae[f as int] {
        FormulaView::All(p) => {
            lemma_var_free_extends(old, new, p, 0);
        },
        FormulaView::Ex(p) => {
            lemma_var_free_extends(old, new, p, 0);
        },
        _ => {},
    }
}

/// The body of the quantified formula `f`, if the bound variable does not
/// occur in it and it is stable: then the body is what is left when the
/// quantifier is dropped.
pub open spec fn settled_body(s: StoreView, f: Id) -> Option<Id> {
    match s.formulae[f as int] {
        FormulaView::All(p) => if var_free(s, p, 0) && stable(s, p, 0) {
            Some(p)
        } else {
            None
        },
        FormulaView::Ex(p) => if var_free(s, p, 0) && stable(s, p, 0) {
            Some(p)
        } else {
            None
        },
        _ => None,
    }
}

/// What the dropping of a quantifier that binds nothing makes of `f`: a
/// quantified formula in whose body the bound variable does not occur is
/// its body, with the variables that are bound further out numbered one
/// lower. Every other formula stays as it is.
pub open spec fn vacuous_dropped(s: StoreView, f: Id, r: Id) -> bool {
    match s.formulae[f as int] {
        FormulaView::All(p) => if var_free(s, p, 0) {
            lowered(s, p, 0, r)
        } else {
            r == f
        },
        FormulaView::Ex(p) => if var_free(s, p, 0) {
            lowered(s, p, 0, r)
        } else {
            r == f
        },
        _ => r == f,
    }
}

/// Drops the quantifier at the top of `f` if it binds nothing. The result
/// is `f` itself, or lighter than `f`.
pub fn drop_vacuous(store: &mut Store, f: Id) -> (r: Id)
    requires
        old(store).wf(),
        f < old(store)@.formulae.len(),
    ensures
        final(store).wf(),
        final(store)@.extends(old(store)@),
        r < final(store)@.formulae.len(),
        vacuous_dropped(final(store)@, f, r),
        r == f || final(store)@.weight(r) < final(store)@.weight(f),
        vacuous(final(store)@, f) ==> final(store)@.weight(r) < final(store)@.weight(f),
        !vacuous(old(store)@, f) ==> r == f,
        settled_body(old(store)@, f) matches Some(p) ==> r == p,
{
    let ghost before = store@;
    proof {
        assert(before.formula_ok(before.formulae[f as int], f as int));
    }
    let body = match store.formula(f) {
        Formula::All(p) => Some(*p),
        Formula::Ex(p) => Some(*p),
        _ => None,
    };
    let count = store.formula_count();
    match body {
        Some(p) => {
            if Formula::is_var_free(store, p, 0) {
                if Formula::is_stable(store, p, 0) {
                    proof {
                        lemma_stable_lowered(before, p, 0);
                        lemma_weight_unfold(before, f);
                    }
                    return p;
                }
                let r = Formula::lower(store, p, 0);
                proof {
                    lemma_var_free_extends(before, store@, p, 0);
                    lemma_weight_unfold(store@, f);
                    assert(store@.formulae[f as int] == before.formulae[f as int]);
                    assert(var_free(store@, p, 0) && lowered(store@, p, 0, r));
                }
                r
            } else {
                f
            }
        },
        None => f,
    }
}

} // verus!
