//! The parts of a formula and of a term, level by level.
//!
//! A traversal lists a formula, then the formulae directly below it, then
//! those directly below these, and so on. A part that occurs in several
//! places is listed once for each place.

use crate::collections::{Id, IdList};
use crate::formula::{Formula, FormulaView};
use crate::store::{Store, StoreView};
use crate::term::{Term, TermView};
use vstd::prelude::*;

verus! {

/// The formulae directly below the formula `f`, in their order.
pub open spec fn parts(s: StoreView, f: Id) -> Seq<Id> {
    match s.formulae[f as int] {
        FormulaView::Not(p) => seq![p],
        FormulaView::All(p) => seq![p],
        FormulaView::Ex(p) => seq![p],
        FormulaView::Imp(p, q) => seq![p, q],
        FormulaView::Or(ps) => ps,
        FormulaView::And(ps) => ps,
        FormulaView::Eqv(ps) => ps,
        _ => Seq::empty(),
    }
}

/// The terms directly below the term `t`, in their order.
pub open spec fn term_parts(s: StoreView, t: Id) -> Seq<Id> {
    match s.terms[t as int] {
        TermView::Fn(_, ts) => ts,
        TermView::Var(_) => Seq::empty(),
    }
}

/// The terms of the atom `f`, in their order; none if `f` is no atom.
pub open spec fn atom_terms(s: StoreView, f: Id) -> Seq<Id> {
    match s.formulae[f as int] {
        FormulaView::Eq(ts) => ts,
        FormulaView::Prd(_, ts) => ts,
        _ => Seq::empty(),
    }
}

/// What `below` gives for each of the first `n` of `list`, one after the
/// other.
pub open spec fn below_all(list: Seq<Id>, n: nat, below: spec_fn(Id) -> Seq<Id>) -> Seq<Id>
    decreases n,
{
    if n == 0 || n > list.len() {
        Seq::empty()
    } else {
        below_all(list, (n - 1) as nat, below) + below(list[n - 1])
    }
}

/// The level `level`, then what is below it, level by level, for `depth`
/// levels.
pub open spec fn levels(level: Seq<Id>, depth: nat, below: spec_fn(Id) -> Seq<Id>) -> Seq<Id>
    decreases depth,
{
    if depth == 0 {
        Seq::empty()
    } else {
        level + levels(below_all(level, level.len(), below), (depth - 1) as nat, below)
    }
}

/// The formula `f` and the formulae below it, level by level.
pub open spec fn breadth_first(s: StoreView, f: Id) -> Seq<Id> {
    levels(seq![f], (f + 1) as nat, |x: Id| parts(s, x))
}

/// The term `t` and the terms below it, level by level.
pub open spec fn breadth_first_term(s: StoreView, t: Id) -> Seq<Id> {
    levels(seq![t], (t + 1) as nat, |x: Id| term_parts(s, x))
}

/// The terms of the atoms of `f`, in the order in which the traversal of
/// `f` lists the atoms.
pub open spec fn breadth_first_terms(s: StoreView, f: Id) -> Seq<Id> {
    below_all(breadth_first(s, f), breadth_first(s, f).len(), |x: Id| atom_terms(s, x))
}

/// Whether every one of `list` is below `bound`.
pub open spec fn all_under(list: Seq<Id>, bound: int) -> bool {
    forall|i: int| 0 <= i < list.len() ==> (#[trigger] list[i]) < bound
}

/// What is below a level of formulae that are all under a bound is under
/// the bound less one.
pub proof fn lemma_parts_under(s: StoreView, level: Seq<Id>, n: nat, bound: int)
    requires
        s.wf(),
        n <= level.len(),
        bound <= s.formulae.len(),
        all_under(level, bound),
    ensures
        all_under(below_all(level, n, |x: Id| parts(s, x)), bound - 1),
    decreases n,
{
    if n > 0 {
        lemma_parts_under(s, level, (n - 1) as nat, bound);
        let x = level[n - 1];
        assert(s.formula_ok(s.formulae[x as int], x as int));
        let front = below_all(level, (n - 1) as nat, |x: Id| parts(s, x));
        let more = parts(s, x);
        let all = below_all(level, n, |x: Id| parts(s, x));
        assert(all == front + more);
        assert forall|i: int| 0 <= i < all.len() implies (#[trigger] all[i]) < bound - 1 by {
            if i >= front.len() {
                assert(all[i] == more[i - front.len()]);
                assert(more[i - front.len()] < x);
            } else {
                assert(all[i] == front[i]);
            }
        }
    }
}

/// What is below a level of terms that are all under a bound is under the
/// bound less one.
pub proof fn lemma_term_parts_under(s: StoreView, level: Seq<Id>, n: nat, bound: int)
    requires
        s.wf(),
        n <= level.len(),
        bound <= s.terms.len(),
        all_under(level, bound),
    ensures
        all_under(below_all(level, n, |x: Id| term_parts(s, x)), bound - 1),
    decreases n,
{
    if n > 0 {
        lemma_term_parts_under(s, level, (n - 1) as nat, bound);
        let x = level[n - 1];
        assert(s.term_ok(s.terms[x as int], x as int));
        let front = below_all(level, (n - 1) as nat, |x: Id| term_parts(s, x));
        let more = term_parts(s, x);
        let all = below_all(level, n, |x: Id| term_parts(s, x));
        assert(all == front + more);
        assert forall|i: int| 0 <= i < all.len() implies (#[trigger] all[i]) < bound - 1 by {
            if i >= front.len() {
                assert(all[i] == more[i - front.len()]);
                assert(more[i - front.len()] < x);
            } else {
                assert(all[i] == front[i]);
            }
        }
    }
}

/// Appends the identifiers of `list` to `out`.
fn append_list(out: &mut Vec<Id>, list: &IdList)
    ensures
        final(out)@ == old(out)@ + list@,
{
    let ghost start = out@;
    let n = list.len();
    let mut i: usize = 0;
    while i < n
        invariant
            n == list@.len(),
            i <= n,
            out@ == start + list@.take(i as int),
        decreases n - i,
    {
        out.push(list.at(i));
        proof {
            assert(out@ =~= start + list@.take(i + 1));
        }
        i += 1;
    }
    proof {
        assert(list@.take(n as int) =~= list@);
    }
}

/// Appends the identifiers of `list` to `out`.
fn append_all(out: &mut Vec<Id>, list: &Vec<Id>)
    ensures
        final(out)@ == old(out)@ + list@,
{
    let ghost start = out@;
    let n = list.len();
    let mut i: usize = 0;
    while i < n
        invariant
            n == list@.len(),
            i <= n,
            out@ == start + list@.take(i as int),
        decreases n - i,
    {
        out.push(list[i]);
        proof {
            assert(out@ =~= start + list@.take(i + 1));
        }
        i += 1;
    }
    proof {
        assert(list@.take(n as int) =~= list@);
    }
}

/// Appends the formulae directly below `f` to `out`.
fn append_parts(out: &mut Vec<Id>, store: &Store, f: Id)
    requires
        f < store@.formulae.len(),
    ensures
        final(out)@ == old(out)@ + parts(store@, f),
{
    let ghost start = out@;
    match store.formula(f) {
        Formula::Not(p) => {
            out.push(*p);
        },
        Formula::All(p) => {
            out.push(*p);
        },
        Formula::Ex(p) => {
            out.push(*p);
        },
        Formula::Imp(p, q) => {
            out.push(*p);
            out.push(*q);
        },
        Formula::Or(ps) => {
            append_list(out, ps.as_list());
        },
        Formula::And(ps) => {
            append_list(out, ps.as_list());
        },
        Formula::Eqv(ps) => {
            append_list(out, ps.as_list());
        },
        _ => {},
    }
    proof {
        assert(out@ =~= start + parts(store@, f));
    }
}

/// Appends the terms directly below `t` to `out`.
fn append_term_parts(out: &mut Vec<Id>, store: &Store, t: Id)
    requires
        t < store@.terms.len(),
    ensures
        final(out)@ == old(out)@ + term_parts(store@, t),
{
    let ghost start = out@;
    match store.term(t) {
        Term::Fn(_, ts) => {
            append_list(out, ts);
        },
        Term::Var(_) => {},
    }
    proof {
        assert(out@ =~= start + term_parts(store@, t));
    }
}

/// Appends the terms of the atom `f` to `out`.
fn append_atom_terms(out: &mut Vec<Id>, store: &Store, f: Id)
    requires
        f < store@.formulae.len(),
    ensures
        final(out)@ == old(out)@ + atom_terms(store@, f),
{
    let ghost start = out@;
    match store.formula(f) {
        Formula::Eq(ts) => {
            append_list(out, ts.as_list());
        },
        Formula::Prd(_, ts) => {
            append_list(out, ts);
        },
        _ => {},
    }
    proof {
        assert(out@ =~= start + atom_terms(store@, f));
    }
}

impl Formula {
    /// The formula `f` and the formulae below it, level by level.
    pub fn breadth_first(store: &Store, f: Id) -> (out: Vec<Id>)
        requires
            store.wf(),
            f < store@.formulae.len(),
        ensures
            out@ == breadth_first(store@, f),
            forall|i: int| 0 <= i < out@.len() ==> out@[i] < store@.formulae.len(),
    {
        let ghost below = |x: Id| parts(store@, x);
        let ghost whole = breadth_first(store@, f);
        let count = store.formula_count();
        let mut out: Vec<Id> = Vec::new();
        let mut level: Vec<Id> = Vec::new();
        level.push(f);
        let mut depth: usize = f + 1;
        proof {
            assert(level@ =~= seq![f]);
            assert(out@ + levels(level@, depth as nat, below) =~= whole);
        }
        while depth > 0
            invariant
                store.wf(),
                below == |x: Id| parts(store@, x),
                depth <= store@.formulae.len(),
                all_under(level@, depth as int),
                out@ + levels(level@, depth as nat, below) == whole,
                forall|i: int| 0 <= i < out@.len() ==> out@[i] < store@.formulae.len(),
            decreases depth,
        {
            let ghost before = out@;
            let ghost current = level@;
            append_all(&mut out, &level);
            let mut next: Vec<Id> = Vec::new();
            let n = level.len();
            let mut i: usize = 0;
            proof {
                assert(next@ =~= below_all(current, 0, below));
            }
            while i < n
                invariant
                    n == level@.len(),
                    i <= n,
                    level@ == current,
                    below == |x: Id| parts(store@, x),
                    depth <= store@.formulae.len(),
                    all_under(current, depth as int),
                    next@ == below_all(current, i as nat, below),
                decreases n - i,
            {
                append_parts(&mut next, store, level[i]);
                i += 1;
            }
            proof {
                lemma_parts_under(store@, current, current.len(), depth as int);
                assert(out@ + levels(next@, (depth - 1) as nat, below) =~= before + levels(
                    current,
                    depth as nat,
                    below,
                ));
            }
            level = next;
            depth -= 1;
        }
        out
    }

    /// The terms of the atoms of `f`, in the order in which the traversal
    /// of `f` lists the atoms.
    pub fn breadth_first_terms(store: &Store, f: Id) -> (out: Vec<Id>)
        requires
            store.wf(),
            f < store@.formulae.len(),
        ensures
            out@ == breadth_first_terms(store@, f),
    {
        let ghost below = |x: Id| atom_terms(store@, x);
        let formulae = Formula::breadth_first(store, f);
        let mut out: Vec<Id> = Vec::new();
        let n = formulae.len();
        let mut i: usize = 0;
        proof {
            assert(out@ =~= below_all(formulae@, 0, below));
        }
        while i < n
            invariant
                n == formulae@.len(),
                i <= n,
                below == |x: Id| atom_terms(store@, x),
                forall|k: int| 0 <= k < formulae@.len() ==> formulae@[k] < store@.formulae.len(),
                out@ == below_all(formulae@, i as nat, below),
            decreases n - i,
        {
            append_atom_terms(&mut out, store, formulae[i]);
            i += 1;
        }
        out
    }
}

impl Term {
    /// The term `t` and the terms below it, level by level.
    pub fn breadth_first(store: &Store, t: Id) -> (out: Vec<Id>)
        requires
            store.wf(),
            t < store@.terms.len(),
        ensures
            out@ == breadth_first_term(store@, t),
    {
        let ghost below = |x: Id| term_parts(store@, x);
        let ghost whole = breadth_first_term(store@, t);
        let count = store.term_count();
        let mut out: Vec<Id> = Vec::new();
        let mut level: Vec<Id> = Vec::new();
        level.push(t);
        let mut depth: usize = t + 1;
        proof {
            assert(level@ =~= seq![t]);
            assert(out@ + levels(level@, depth as nat, below) =~= whole);
        }
        while depth > 0
            invariant
                store.wf(),
                below == |x: Id| term_parts(store@, x),
                depth <= store@.terms.len(),
                all_under(level@, depth as int),
                out@ + levels(level@, depth as nat, below) == whole,
            decreases depth,
        {
            let ghost before = out@;
            let ghost current = level@;
            append_all(&mut out, &level);
            let mut next: Vec<Id> = Vec::new();
            let n = level.len();
            let mut i: usize = 0;
            proof {
                assert(next@ =~= below_all(current, 0, below));
            }
            while i < n
                invariant
                    n == level@.len(),
                    i <= n,
                    level@ == current,
                    below == |x: Id| term_parts(store@, x),
                    depth <= store@.terms.len(),
                    all_under(current, depth as int),
                    next@ == below_all(current, i as nat, below),
                decreases n - i,
            {
                append_term_parts(&mut next, store, level[i]);
                i += 1;
            }
            proof {
                lemma_term_parts_under(store@, current, current.len(), depth as int);
                assert(out@ + levels(next@, (depth - 1) as nat, below) =~= before + levels(
                    current,
                    depth as nat,
                    below,
                ));
            }
            level = next;
            depth -= 1;
        }
        out
    }
}

} // verus!
