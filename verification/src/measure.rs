//! The size of a formula, by which rewriting is shown to come to an end.
//!
//! Every rewrite of the simplifier that changes a formula makes it lighter.
//! The weights are chosen for that: an implication weighs more than the
//! equivalence that a pair of implications is folded into, and a member of an
//! equivalence weighs more than its negation as a member of a conjunction.

use crate::collections::{ascending, inserted, joined, Id};
use crate::formula::FormulaView;
use crate::store::StoreView;
use vstd::prelude::*;

verus! {

/// The sum of `val` over the elements of `ids`.
pub open spec fn sum(ids: Seq<Id>, val: spec_fn(Id) -> nat) -> nat
    decreases ids.len(),
{
    if ids.len() == 0 {
        0
    } else {
        sum(ids.drop_last(), val) + val(ids.last())
    }
}

/// A sum is that of the other elements plus the value of any one element.
pub proof fn lemma_sum_remove(ids: Seq<Id>, val: spec_fn(Id) -> nat, k: int)
    requires
        0 <= k < ids.len(),
    ensures
        sum(ids, val) == sum(ids.remove(k), val) + val(ids[k]),
    decreases ids.len(),
{
    if k == ids.len() - 1 {
        assert(ids.remove(k) =~= ids.drop_last());
    } else {
        lemma_sum_remove(ids.drop_last(), val, k);
        assert(ids.remove(k).drop_last() =~= ids.drop_last().remove(k));
        assert(ids.remove(k).last() == ids.last());
    }
}

/// Where each element of `qs` can be matched with an element of `ps` of its
/// own, of at least its value, the sum over `qs` is at most that over `ps`.
/// It is smaller if some element is worth less than its match, or some
/// element of `ps` of positive value is nobody's match.
pub proof fn lemma_sum_dominated(
    qs: Seq<Id>,
    qval: spec_fn(Id) -> nat,
    ps: Seq<Id>,
    pval: spec_fn(Id) -> nat,
    h: spec_fn(Id) -> Id,
)
    requires
        qs.no_duplicates(),
        ps.no_duplicates(),
        forall|q: Id| qs.contains(q) ==> ps.contains(h(q)) && qval(q) <= pval(h(q)),
        forall|a: Id, b: Id| qs.contains(a) && qs.contains(b) && h(a) == h(b) ==> a == b,
    ensures
        sum(qs, qval) <= sum(ps, pval),
        (exists|q: Id| qs.contains(q) && qval(q) < pval(h(q))) ==> sum(qs, qval) < sum(ps, pval),
        (exists|p: Id|
            ps.contains(p) && pval(p) > 0 && (forall|q: Id| qs.contains(q) ==> h(q) != p))
            ==> sum(qs, qval) < sum(ps, pval),
    decreases qs.len(),
{
    if qs.len() == 0 {
        if exists|p: Id|
            ps.contains(p) && pval(p) > 0 && (forall|q: Id| qs.contains(q) ==> h(q) != p) {
            let p = choose|p: Id|
                ps.contains(p) && pval(p) > 0 && (forall|q: Id| qs.contains(q) ==> h(q) != p);
            let k = choose|k: int| 0 <= k < ps.len() && ps[k] == p;
            lemma_sum_remove(ps, pval, k);
        }
        if exists|q: Id| qs.contains(q) && qval(q) < pval(h(q)) {
            let q = choose|q: Id| qs.contains(q) && qval(q) < pval(h(q));
            let k = choose|k: int| 0 <= k < qs.len() && qs[k] == q;
        }
    } else {
        let last = qs.last();
        let front = qs.drop_last();
        assert(qs.contains(last)) by {
            assert(qs[qs.len() - 1] == last);
        }
        let k = choose|k: int| 0 <= k < ps.len() && ps[k] == h(last);
        let rest = ps.remove(k);
        lemma_sum_remove(ps, pval, k);
        assert forall|x: Id| front.contains(x) implies qs.contains(x) && x != last by {
            let i = choose|i: int| 0 <= i < front.len() && front[i] == x;
            assert(qs[i] == x);
        }
        assert forall|x: Id| rest.contains(x) <==> (ps.contains(x) && x != ps[k]) by {
            if rest.contains(x) {
                let i = choose|i: int| 0 <= i < rest.len() && rest[i] == x;
                if i < k {
                    assert(ps[i] == x);
                } else {
                    assert(ps[i + 1] == x);
                }
            }
            if ps.contains(x) && x != ps[k] {
                let i = choose|i: int| 0 <= i < ps.len() && ps[i] == x;
                if i < k {
                    assert(rest[i] == x);
                } else {
                    assert(rest[i - 1] == x);
                }
            }
        }
        assert(front.no_duplicates());
        assert(rest.no_duplicates()) by {
            assert forall|i: int, j: int| 0 <= i < rest.len() && 0 <= j < rest.len() && i
                != j implies rest[i] != rest[j] by {
                let ii = if i < k { i } else { i + 1 };
                let jj = if j < k { j } else { j + 1 };
                assert(rest[i] == ps[ii] && rest[j] == ps[jj]);
            }
        }
        assert forall|q: Id| front.contains(q) implies rest.contains(h(q)) && qval(q) <= pval(
            h(q),
        ) by {
            assert(qs.contains(q) && q != last);
        }
        lemma_sum_dominated(front, qval, rest, pval, h);
        if exists|q: Id| qs.contains(q) && qval(q) < pval(h(q)) {
            let q = choose|q: Id| qs.contains(q) && qval(q) < pval(h(q));
            if q != last {
                let i = choose|i: int| 0 <= i < qs.len() && qs[i] == q;
                assert(front[i] == q);
                assert(front.contains(q));
            }
        }
        if exists|p: Id|
            ps.contains(p) && pval(p) > 0 && (forall|q: Id| qs.contains(q) ==> h(q) != p) {
            let p = choose|p: Id|
                ps.contains(p) && pval(p) > 0 && (forall|q: Id| qs.contains(q) ==> h(q) != p);
            assert(p != ps[k]);
            assert(rest.contains(p));
            assert(forall|q: Id| front.contains(q) ==> h(q) != p);
        }
    }
}

impl StoreView {
    /// The weight of the formula `f`.
    pub open spec fn weight(self, f: Id) -> nat
        decreases f + 1, 0nat,
    {
        if f >= self.formulae.len() {
            0
        } else {
            match self.formulae[f as int] {
                FormulaView::T | FormulaView::F | FormulaView::Prd(_, _) => 1,
                FormulaView::Eq(_) => 2,
                FormulaView::Not(p) | FormulaView::All(p) | FormulaView::Ex(p) => 1 + (if p < f {
                    self.weight(p)
                } else {
                    0
                }),
                FormulaView::Imp(p, q) => 4 + (if p < f {
                    self.weight(p)
                } else {
                    0
                }) + (if q < f {
                    self.weight(q)
                } else {
                    0
                }),
                FormulaView::Or(ps) | FormulaView::And(ps) => 2 + self.weights(ps, f, 0),
                FormulaView::Eqv(ps) => 2 + self.weights(ps, f, 2),
            }
        }
    }

    /// The sum, over the members of `ps`, of the member's weight plus
    /// `extra`; a member that is not below `bound` counts for nothing.
    pub open spec fn weights(self, ps: Seq<Id>, bound: Id, extra: nat) -> nat
        decreases bound, ps.len() + 1,
    {
        if ps.len() == 0 {
            0
        } else {
            self.weights(ps.drop_last(), bound, extra) + (if ps.last() < bound {
                self.weight(ps.last()) + extra
            } else {
                0
            })
        }
    }

    /// The weight of a member of a connective: its own weight plus `extra`.
    pub open spec fn member_weight(self, extra: nat) -> spec_fn(Id) -> nat {
        |p: Id| self.weight(p) + extra
    }
}

/// The weights of members below the bound add up as a plain sum.
pub proof fn lemma_weights_sum(s: StoreView, ps: Seq<Id>, bound: Id, extra: nat)
    requires
        forall|i: int| 0 <= i < ps.len() ==> ps[i] < bound,
    ensures
        s.weights(ps, bound, extra) == sum(ps, s.member_weight(extra)),
    decreases ps.len(),
{
    if ps.len() > 0 {
        let front = ps.drop_last();
        assert forall|i: int| 0 <= i < front.len() implies front[i] < bound by {
            assert(front[i] == ps[i]);
        }
        lemma_weights_sum(s, front, bound, extra);
        assert(ps.last() == ps[ps.len() - 1]);
    }
}

/// A formula weighs the same in a store and in every store that extends it.
pub proof fn lemma_weight_extends(old: StoreView, new: StoreView, f: Id)
    requires
        new.extends(old),
        f < old.formulae.len(),
    ensures
        new.weight(f) == old.weight(f),
    decreases f + 1, 0nat,
{
    match old.formulae[f as int] {
        FormulaView::Not(p) | FormulaView::All(p) | FormulaView::Ex(p) => {
            if p < f {
                lemma_weight_extends(old, new, p);
            }
        },
        FormulaView::Imp(p, q) => {
            if p < f {
                lemma_weight_extends(old, new, p);
            }
            if q < f {
                lemma_weight_extends(old, new, q);
            }
        },
        FormulaView::Or(ps) | FormulaView::And(ps) => {
            lemma_weights_extend(old, new, ps, f, 0);
        },
        FormulaView::Eqv(ps) => {
            lemma_weights_extend(old, new, ps, f, 2);
        },
        _ => {},
    }
}

/// The members of a connective weigh the same in every store that extends
/// the one that holds it.
pub proof fn lemma_weights_extend(
    old: StoreView,
    new: StoreView,
    ps: Seq<Id>,
    bound: Id,
    extra: nat,
)
    requires
        new.extends(old),
        bound <= old.formulae.len(),
    ensures
        new.weights(ps, bound, extra) == old.weights(ps, bound, extra),
    decreases bound, ps.len() + 1,
{
    if ps.len() > 0 {
        lemma_weights_extend(old, new, ps.drop_last(), bound, extra);
        if ps.last() < bound {
            lemma_weight_extends(old, new, ps.last());
        }
    }
}

/// An ascending sequence holds nothing twice.
pub proof fn lemma_ascending_distinct(s: Seq<Id>)
    requires
        ascending(s),
    ensures
        s.no_duplicates(),
{
    assert forall|i: int, j: int| 0 <= i < s.len() && 0 <= j < s.len() && i != j implies s[i]
        != s[j] by {
        if i < j {
            assert(s[i] < s[j]);
        } else {
            assert(s[j] < s[i]);
        }
    }
}

/// The weight of a stored formula, in terms of the weights of its parts.
pub proof fn lemma_weight_unfold(s: StoreView, f: Id)
    requires
        s.wf(),
        f < s.formulae.len(),
    ensures
        s.weight(f) >= 1,
        match s.formulae[f as int] {
            FormulaView::T | FormulaView::F | FormulaView::Prd(_, _) => s.weight(f) == 1,
            FormulaView::Eq(_) => s.weight(f) == 2,
            FormulaView::Not(p) | FormulaView::All(p) | FormulaView::Ex(p) => p < f && s.weight(f)
                == 1 + s.weight(p),
            FormulaView::Imp(p, q) => p < f && q < f && s.weight(f) == 4 + s.weight(p) + s.weight(
                q,
            ),
            FormulaView::Or(ps) | FormulaView::And(ps) => s.weight(f) == 2 + sum(
                ps,
                s.member_weight(0),
            ),
            FormulaView::Eqv(ps) => s.weight(f) == 2 + sum(ps, s.member_weight(2)),
        },
{
    assert(s.formula_ok(s.formulae[f as int], f as int));
    match s.formulae[f as int] {
        FormulaView::Or(ps) => {
            lemma_weights_sum(s, ps, f, 0);
        },
        FormulaView::And(ps) => {
            lemma_weights_sum(s, ps, f, 0);
        },
        FormulaView::Eqv(ps) => {
            lemma_weights_sum(s, ps, f, 2);
        },
        _ => {},
    }
}

/// The sum over a part of an ascending sequence is at most the sum over the
/// whole, and smaller if something of positive value is left out.
pub proof fn lemma_sum_subset(qs: Seq<Id>, ps: Seq<Id>, val: spec_fn(Id) -> nat)
    requires
        ascending(qs),
        ascending(ps),
        forall|x: Id| qs.contains(x) ==> ps.contains(x),
    ensures
        sum(qs, val) <= sum(ps, val),
        (exists|x: Id| ps.contains(x) && !qs.contains(x) && val(x) > 0) ==> sum(qs, val) < sum(
            ps,
            val,
        ),
{
    lemma_ascending_distinct(qs);
    lemma_ascending_distinct(ps);
    let h = |x: Id| x;
    lemma_sum_dominated(qs, val, ps, val, h);
    if exists|x: Id| ps.contains(x) && !qs.contains(x) && val(x) > 0 {
        let x = choose|x: Id| ps.contains(x) && !qs.contains(x) && val(x) > 0;
        assert(ps.contains(x) && val(x) > 0 && (forall|q: Id| qs.contains(q) ==> h(q) != x));
    }
}

/// A proper part of an ascending sequence leaves a member out.
pub proof fn lemma_proper_subset(qs: Seq<Id>, ps: Seq<Id>)
    requires
        ascending(qs),
        ascending(ps),
        forall|x: Id| qs.contains(x) ==> ps.contains(x),
        qs != ps,
    ensures
        exists|x: Id| ps.contains(x) && !qs.contains(x),
{
    if forall|x: Id| ps.contains(x) ==> qs.contains(x) {
        crate::collections::lemma_ascending_unique(qs, ps);
    }
}

/// The sum over `inserted(s, x)` is that over `s`, plus the value of `x` if
/// it was no member.
pub proof fn lemma_sum_inserted(s: Seq<Id>, x: Id, val: spec_fn(Id) -> nat)
    requires
        ascending(s),
    ensures
        sum(inserted(s, x), val) == sum(s, val) + (if s.contains(x) {
            0
        } else {
            val(x)
        }),
    decreases s.len(),
{
    crate::collections::lemma_inserted(s, x);
    if s.len() == 0 {
        assert(seq![x].drop_last() =~= Seq::<Id>::empty());
        assert(sum(seq![x].drop_last(), val) == 0);
    } else {
        let front = s.drop_last();
        let last = s.last();
        assert(s =~= front.push(last));
        crate::collections::lemma_push_contains(front, last);
        if last < x {
            assert(s.push(x).drop_last() =~= s);
            assert(!s.contains(x)) by {
                if s.contains(x) {
                    let k = choose|k: int| 0 <= k < s.len() && s[k] == x;
                    if k < s.len() - 1 {
                        assert(s[k] < s[s.len() - 1]);
                    }
                }
            }
        } else if last == x {
            assert(s[s.len() - 1] == x);
        } else {
            assert(ascending(front)) by {
                assert forall|i: int, j: int| 0 <= i < j < front.len() implies front[i]
                    < front[j] by {
                    assert(s[i] < s[j]);
                }
            }
            lemma_sum_inserted(front, x, val);
            let mid = inserted(front, x);
            assert(mid.push(last).drop_last() =~= mid);
        }
    }
}

/// The sum over `joined(a, b)` is at most the sum over `a` plus that over `b`.
pub proof fn lemma_sum_joined(a: Seq<Id>, b: Seq<Id>, val: spec_fn(Id) -> nat)
    requires
        ascending(a),
    ensures
        sum(joined(a, b), val) <= sum(a, val) + sum(b, val),
    decreases b.len(),
{
    if b.len() > 0 {
        let front = b.drop_last();
        lemma_sum_joined(a, front, val);
        crate::collections::lemma_joined(a, front);
        lemma_sum_inserted(joined(a, front), b.last(), val);
    }
}

} // verus!
