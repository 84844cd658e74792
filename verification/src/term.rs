//! Terms: variables and applications of function symbols.

use crate::collections::{Id, IdList};
use crate::store::{Store, StoreView};
use crate::symbol::Symbol;
use vstd::prelude::*;

verus! {

/// A term as it is stored: its arguments are identifiers of other terms.
///
/// A variable is a de Bruijn index: `Var(0)` is bound by the innermost
/// quantifier around it.
pub enum Term {
    Var(usize),
    Fn(Symbol, IdList),
}

/// What a stored term holds.
pub enum TermView {
    Var(usize),
    Fn(Symbol, Seq<Id>),
}

impl View for Term {
    type V = TermView;

    open spec fn view(&self) -> TermView {
        match self {
            Term::Var(n) => TermView::Var(*n),
            Term::Fn(f, ts) => TermView::Fn(*f, ts@),
        }
    }
}

impl Clone for Term {
    fn clone(&self) -> (copy: Self)
        ensures
            copy@ == self@,
    {
        match self {
            Term::Var(n) => Term::Var(*n),
            Term::Fn(f, ts) => Term::Fn(*f, ts.clone()),
        }
    }
}

impl Term {
    /// Whether two terms hold the same.
    pub fn same(&self, other: &Term) -> (equal: bool)
        ensures
            equal == (self@ == other@),
    {
        match (self, other) {
            (Term::Var(n), Term::Var(m)) => *n == *m,
            (Term::Fn(f, ts), Term::Fn(g, ss)) => *f == *g && ts.same(ss),
            _ => false,
        }
    }

    /// Whether the term is an application of a function symbol.
    pub fn is_function(&self) -> (function: bool)
        ensures
            function == (self@ is Fn),
    {
        match self {
            Term::Fn(_, _) => true,
            _ => false,
        }
    }
}

/// Whether `vars` are the variables with the indices `index + arity - 1`
/// down to `index`, in this order.
pub open spec fn descending_vars(s: StoreView, vars: Seq<Id>, index: usize, arity: usize) -> bool {
    vars.len() == arity && forall|k: int|
        0 <= k < arity ==> s.is_term(
            #[trigger] vars[k],
            TermView::Var((index + arity - 1 - k) as usize),
        )
}

/// Whether `r` is the term `t` with the variable `index` replaced by the
/// application of `symbol` to the `arity` variables from `index` on, highest
/// first.
pub open spec fn term_substituted(
    s: StoreView,
    t: Id,
    index: usize,
    symbol: Symbol,
    arity: usize,
    r: Id,
) -> bool
    decreases t,
{
    t < s.terms.len() && r < s.terms.len() && match s.terms[t as int] {
        TermView::Var(n) => if n == index {
            match s.terms[r as int] {
                TermView::Fn(g, vars) => g == symbol && descending_vars(s, vars, index, arity),
                _ => false,
            }
        } else {
            r == t
        },
        TermView::Fn(f, ts) => match s.terms[r as int] {
            TermView::Fn(g, rs) => g == f && rs.len() == ts.len() && forall|i: int|
                0 <= i < ts.len() ==> (#[trigger] ts[i]) < t && term_substituted(
                    s,
                    ts[i],
                    index,
                    symbol,
                    arity,
                    rs[i],
                ),
            _ => false,
        },
    }
}

/// A substitution that holds in a store holds in every store that extends
/// it.
pub proof fn lemma_term_substituted_extends(
    old: StoreView,
    new: StoreView,
    t: Id,
    index: usize,
    symbol: Symbol,
    arity: usize,
    r: Id,
)
    requires
        new.extends(old),
        term_substituted(old, t, index, symbol, arity, r),
    ensures
        term_substituted(new, t, index, symbol, arity, r),
    decreases t,
{
    assert(new.terms[t as int] == old.terms[t as int]);
    assert(new.terms[r as int] == old.terms[r as int]);
    match old.terms[t as int] {
        TermView::Var(n) => {
            if n == index {
                match old.terms[r as int] {
                    TermView::Fn(g, vars) => {
                        assert forall|k: int| 0 <= k < arity implies new.is_term(
                            #[trigger] vars[k],
                            TermView::Var((index + arity - 1 - k) as usize),
                        ) by {
                            assert(old.is_term(
                                vars[k],
                                TermView::Var((index + arity - 1 - k) as usize),
                            ));
                        }
                    },
                    _ => {},
                }
            }
        },
        TermView::Fn(f, ts) => {
            match old.terms[r as int] {
                TermView::Fn(g, rs) => {
                    assert forall|i: int| 0 <= i < ts.len() implies (#[trigger] ts[i]) < t
                        && term_substituted(new, ts[i], index, symbol, arity, rs[i]) by {
                        lemma_term_substituted_extends(old, new, ts[i], index, symbol, arity, rs[i]);
                    }
                },
                _ => {},
            }
        },
    }
}

/// The result of a substitution is determined by the term it is applied to.
pub proof fn lemma_term_substituted_unique(
    s: StoreView,
    t: Id,
    index: usize,
    symbol: Symbol,
    arity: usize,
    a: Id,
    b: Id,
)
    requires
        s.wf(),
        term_substituted(s, t, index, symbol, arity, a),
        term_substituted(s, t, index, symbol, arity, b),
    ensures
        a == b,
    decreases t,
{
    match s.terms[t as int] {
        TermView::Var(n) => {
            if n == index {
                match (s.terms[a as int], s.terms[b as int]) {
                    (TermView::Fn(g, vars), TermView::Fn(h, wars)) => {
                        assert forall|k: int| 0 <= k < vars.len() implies vars[k] == wars[k] by {
                            assert(s.is_term(
                                vars[k],
                                TermView::Var((index + arity - 1 - k) as usize),
                            ));
                            assert(s.is_term(
                                wars[k],
                                TermView::Var((index + arity - 1 - k) as usize),
                            ));
                            crate::store::lemma_interning(s, vars[k], wars[k]);
                        }
                        assert(vars =~= wars);
                        crate::store::lemma_interning(s, a, b);
                    },
                    _ => {},
                }
            }
        },
        TermView::Fn(f, ts) => {
            match (s.terms[a as int], s.terms[b as int]) {
                (TermView::Fn(g, rs), TermView::Fn(h, qs)) => {
                    assert forall|i: int| 0 <= i < rs.len() implies rs[i] == qs[i] by {
                        assert(ts[i] < t);
                        lemma_term_substituted_unique(s, ts[i], index, symbol, arity, rs[i], qs[i]);
                    }
                    assert(rs =~= qs);
                    crate::store::lemma_interning(s, a, b);
                },
                _ => {},
            }
        },
    }
}

/// Whether the function symbol `symbol` is applied to `arity` arguments
/// somewhere in the term `t`.
pub open spec fn term_mentions(s: StoreView, t: Id, symbol: Symbol, arity: usize) -> bool
    decreases t,
{
    t < s.terms.len() && match s.terms[t as int] {
        TermView::Var(_) => false,
        TermView::Fn(g, ts) => (g == symbol && ts.len() == arity) || exists|i: int|
            0 <= i < ts.len() && (#[trigger] ts[i]) < t && term_mentions(s, ts[i], symbol, arity),
    }
}

/// Whether one of the first `n` terms of `ts` mentions the symbol.
pub open spec fn terms_mention(
    s: StoreView,
    ts: Seq<Id>,
    n: int,
    symbol: Symbol,
    arity: usize,
) -> bool {
    exists|i: int| 0 <= i < n && i < ts.len() && term_mentions(s, #[trigger] ts[i], symbol, arity)
}

/// One more term mentions what the terms before it mention, and what it
/// mentions itself.
pub proof fn lemma_terms_mention_step(
    s: StoreView,
    ts: Seq<Id>,
    n: int,
    symbol: Symbol,
    arity: usize,
)
    requires
        0 <= n < ts.len(),
    ensures
        terms_mention(s, ts, n + 1, symbol, arity) <==> (terms_mention(s, ts, n, symbol, arity)
            || term_mentions(s, ts[n], symbol, arity)),
        !terms_mention(s, ts, 0, symbol, arity),
{
    if terms_mention(s, ts, n, symbol, arity) {
        let i = choose|i: int|
            0 <= i < n && i < ts.len() && term_mentions(s, #[trigger] ts[i], symbol, arity);
        assert(0 <= i < n + 1 && term_mentions(s, ts[i], symbol, arity));
    }
    if term_mentions(s, ts[n], symbol, arity) {
        assert(0 <= n < n + 1 && term_mentions(s, ts[n], symbol, arity));
    }
    if terms_mention(s, ts, n + 1, symbol, arity) {
        let i = choose|i: int|
            0 <= i < n + 1 && i < ts.len() && term_mentions(s, #[trigger] ts[i], symbol, arity);
        if i < n {
            assert(0 <= i < n && term_mentions(s, ts[i], symbol, arity));
        }
    }
}

/// A term mentions its own symbol, and what its arguments mention.
pub proof fn lemma_term_mentions(s: StoreView, t: Id, symbol: Symbol, arity: usize)
    requires
        s.wf(),
        t < s.terms.len(),
    ensures
        term_mentions(s, t, symbol, arity) <==> (match s.terms[t as int] {
            TermView::Var(_) => false,
            TermView::Fn(g, ts) => (g == symbol && ts.len() == arity) || terms_mention(
                s,
                ts,
                ts.len() as int,
                symbol,
                arity,
            ),
        }),
{
    assert(s.term_ok(s.terms[t as int], t as int));
    match s.terms[t as int] {
        TermView::Var(_) => {},
        TermView::Fn(g, ts) => {
            if terms_mention(s, ts, ts.len() as int, symbol, arity) {
                let i = choose|i: int|
                    0 <= i < ts.len() && i < ts.len() && term_mentions(
                        s,
                        #[trigger] ts[i],
                        symbol,
                        arity,
                    );
                assert(ts[i] < t);
            }
            if term_mentions(s, t, symbol, arity) && !(g == symbol && ts.len() == arity) {
                let i = choose|i: int|
                    0 <= i < ts.len() && (#[trigger] ts[i]) < t && term_mentions(
                        s,
                        ts[i],
                        symbol,
                        arity,
                    );
                assert(0 <= i < ts.len() && term_mentions(s, ts[i], symbol, arity));
            }
        },
    }
}

/// Whether `list` holds, each once, the pairs in `before` and the pairs for
/// which `found` holds.
pub open spec fn gathered(
    list: Seq<(Symbol, usize)>,
    before: Seq<(Symbol, usize)>,
    found: spec_fn(Symbol, usize) -> bool,
) -> bool {
    &&& list.no_duplicates()
    &&& forall|x: (Symbol, usize)| list.contains(x) <==> (before.contains(x) || found(x.0, x.1))
}

/// Whether `list` holds the pairs in `first` and the pairs that the first
/// `n` terms of `ts` mention.
pub open spec fn gathered_terms(
    list: Seq<(Symbol, usize)>,
    first: Seq<(Symbol, usize)>,
    s: StoreView,
    ts: Seq<Id>,
    n: int,
) -> bool {
    forall|x: (Symbol, usize)|
        list.contains(x) <==> (first.contains(x) || terms_mention(s, ts, n, x.0, x.1))
}

/// Adds the pair to the list unless it is there.
pub fn note(list: &mut Vec<(Symbol, usize)>, symbol: Symbol, arity: usize)
    requires
        old(list)@.no_duplicates(),
    ensures
        final(list)@.no_duplicates(),
        forall|x: (Symbol, usize)|
            final(list)@.contains(x) <==> (old(list)@.contains(x) || x == (symbol, arity)),
{
    let n = list.len();
    let mut i: usize = 0;
    while i < n
        invariant
            n == list@.len(),
            i <= n,
            *list == *old(list),
            old(list)@.no_duplicates(),
            forall|j: int| 0 <= j < i ==> list@[j] != (symbol, arity),
        decreases n - i,
    {
        let (s, a) = list[i];
        if s == symbol && a == arity {
            proof {
                assert(list@.contains((symbol, arity)));
            }
            return ;
        }
        i += 1;
    }
    let ghost before = list@;
    list.push((symbol, arity));
    proof {
        assert forall|x: (Symbol, usize)|
            list@.contains(x) <==> (before.contains(x) || x == (symbol, arity)) by {
            if list@.contains(x) {
                let k = choose|k: int| 0 <= k < list@.len() && list@[k] == x;
                if k < before.len() {
                    assert(before[k] == x);
                }
            }
            if before.contains(x) {
                let k = choose|k: int| 0 <= k < before.len() && before[k] == x;
                assert(list@[k] == x);
            }
            if x == (symbol, arity) {
                assert(list@[before.len() as int] == x);
            }
        }
        assert forall|a: int, b: int| 0 <= a < list@.len() && 0 <= b < list@.len() && a
            != b implies list@[a] != list@[b] by {
            if a < before.len() && b < before.len() {
                assert(before[a] != before[b]);
            }
        }
    }
}

impl Term {
    /// The term `t` with the variable `index` replaced by the application of
    /// `symbol` to the `arity` variables from `index` on, highest first.
    pub fn subst(store: &mut Store, t: Id, index: usize, symbol: Symbol, arity: usize) -> (r: Id)
        requires
            old(store).wf(),
            t < old(store)@.terms.len(),
            index + arity <= usize::MAX,
        ensures
            final(store).wf(),
            final(store)@.extends(old(store)@),
            final(store)@.formulae == old(store)@.formulae,
            term_substituted(final(store)@, t, index, symbol, arity, r),
        decreases t,
    {
        let ghost before = store@;
        proof {
            assert(before.term_ok(before.terms[t as int], t as int));
        }
        match store.term(t) {
            Term::Var(n) => {
                if *n == index {
                    let mut vars = IdList::new();
                    let mut k: usize = 0;
                    while k < arity
                        invariant
                            k <= arity,
                            index + arity <= usize::MAX,
                            store.wf(),
                            store@.extends(before),
                            store@.formulae == before.formulae,
                            vars@.len() == k,
                            forall|j: int|
                                0 <= j < k ==> store@.is_term(
                                    #[trigger] vars@[j],
                                    TermView::Var((index + arity - 1 - j) as usize),
                                ),
                        decreases arity - k,
                    {
                        let ghost earlier = store@;
                        let ghost sofar = vars@;
                        let v = store.intern_term(Term::Var(index + arity - 1 - k));
                        vars.push(v);
                        proof {
                            assert forall|j: int| 0 <= j < k + 1 implies store@.is_term(
                                #[trigger] vars@[j],
                                TermView::Var((index + arity - 1 - j) as usize),
                            ) by {
                                if j < k {
                                    assert(earlier.is_term(
                                        sofar[j],
                                        TermView::Var((index + arity - 1 - j) as usize),
                                    ));
                                }
                            }
                        }
                        k += 1;
                    }
                    proof {
                        assert forall|j: int| 0 <= j < vars@.len() implies vars@[j]
                            < store@.terms.len() by {
                            assert(store@.is_term(
                                vars@[j],
                                TermView::Var((index + arity - 1 - j) as usize),
                            ));
                        }
                    }
                    let ghost middle = store@;
                    let ghost made = vars@;
                    let r = store.intern_term(Term::Fn(symbol, vars));
                    proof {
                        assert forall|j: int| 0 <= j < arity implies store@.is_term(
                            #[trigger] made[j],
                            TermView::Var((index + arity - 1 - j) as usize),
                        ) by {
                            assert(middle.is_term(
                                made[j],
                                TermView::Var((index + arity - 1 - j) as usize),
                            ));
                        }
                    }
                    r
                } else {
                    t
                }
            },
            Term::Fn(f, ts) => {
                let f = *f;
                let ts = ts.clone();
                let n = ts.len();
                let mut rs = IdList::new();
                let mut i: usize = 0;
                while i < n
                    invariant
                        n == ts@.len(),
                        i <= n,
                        index + arity <= usize::MAX,
                        store.wf(),
                        store@.extends(before),
                        store@.formulae == before.formulae,
                        before.terms[t as int] == TermView::Fn(f, ts@),
                        t < before.terms.len(),
                        forall|j: int| 0 <= j < ts@.len() ==> ts@[j] < t,
                        rs@.len() == i,
                        forall|j: int|
                            0 <= j < i ==> term_substituted(
                                store@,
                                #[trigger] ts@[j],
                                index,
                                symbol,
                                arity,
                                rs@[j],
                            ),
                    decreases n - i,
                {
                    let ghost earlier = store@;
                    let ghost sofar = rs@;
                    let x = Term::subst(store, ts.at(i), index, symbol, arity);
                    rs.push(x);
                    proof {
                        assert forall|j: int| 0 <= j < i + 1 implies term_substituted(
                            store@,
                            #[trigger] ts@[j],
                            index,
                            symbol,
                            arity,
                            rs@[j],
                        ) by {
                            if j < i {
                                lemma_term_substituted_extends(
                                    earlier,
                                    store@,
                                    ts@[j],
                                    index,
                                    symbol,
                                    arity,
                                    sofar[j],
                                );
                            }
                        }
                    }
                    i += 1;
                }
                let ghost middle = store@;
                let ghost made = rs@;
                proof {
                    assert forall|j: int| 0 <= j < made.len() implies made[j]
                        < middle.terms.len() by {
                        assert(term_substituted(middle, ts@[j], index, symbol, arity, made[j]));
                    }
                }
                let r = store.intern_term(Term::Fn(f, rs));
                proof {
                    let s = store@;
                    assert forall|j: int| 0 <= j < ts@.len() implies (#[trigger] ts@[j]) < t
                        && term_substituted(s, ts@[j], index, symbol, arity, made[j]) by {
                        lemma_term_substituted_extends(
                            middle,
                            s,
                            ts@[j],
                            index,
                            symbol,
                            arity,
                            made[j],
                        );
                    }
                }
                r
            },
        }
    }

    /// Adds to `list` the function symbols of the term `t`, each with the
    /// number of its arguments.
    pub fn function_symbols(store: &Store, t: Id, list: &mut Vec<(Symbol, usize)>)
        requires
            store.wf(),
            t < store@.terms.len(),
            old(list)@.no_duplicates(),
        ensures
            gathered(
                final(list)@,
                old(list)@,
                |symbol: Symbol, arity: usize| term_mentions(store@, t, symbol, arity),
            ),
        decreases t,
    {
        proof {
            assert(store@.term_ok(store@.terms[t as int], t as int));
        }
        match store.term(t) {
            Term::Var(_) => {},
            Term::Fn(f, ts) => {
                note(list, *f, ts.len());
                let n = ts.len();
                let mut i: usize = 0;
                let ghost first = list@;
                proof {
                    assert forall|x: (Symbol, usize)|
                        list@.contains(x) <==> (first.contains(x) || terms_mention(
                            store@,
                            ts@,
                            0,
                            x.0,
                            x.1,
                        )) by {
                        if terms_mention(store@, ts@, 0, x.0, x.1) {
                            let j = choose|j: int|
                                0 <= j < 0 && j < ts@.len() && term_mentions(
                                    store@,
                                    #[trigger] ts@[j],
                                    x.0,
                                    x.1,
                                );
                        }
                    }
                    assert(gathered_terms(list@, first, store@, ts@, 0));
                }
                while i < n
                    invariant
                        n == ts@.len(),
                        i <= n,
                        store.wf(),
                        forall|j: int| 0 <= j < ts@.len() ==> ts@[j] < t,
                        t < store@.terms.len(),
                        list@.no_duplicates(),
                        gathered_terms(list@, first, store@, ts@, i as int),
                    decreases n - i,
                {
                    let ghost sofar = list@;
                    Term::function_symbols(store, ts.at(i), list);
                    proof {
                        assert(gathered_terms(sofar, first, store@, ts@, i as int));
                        assert forall|x: (Symbol, usize)|
                            list@.contains(x) <==> (first.contains(x) || terms_mention(
                                store@,
                                ts@,
                                i + 1,
                                x.0,
                                x.1,
                            )) by {
                            lemma_terms_mention_step(store@, ts@, i as int, x.0, x.1);
                            assert(list@.contains(x) <==> (sofar.contains(x) || term_mentions(
                                store@,
                                ts@[i as int],
                                x.0,
                                x.1,
                            )));
                            assert(sofar.contains(x) <==> (first.contains(x) || terms_mention(
                                store@,
                                ts@,
                                i as int,
                                x.0,
                                x.1,
                            )));
                        }
                        assert(gathered_terms(list@, first, store@, ts@, i + 1));
                    }
                    i += 1;
                }
                proof {
                    assert forall|x: (Symbol, usize)|
                        list@.contains(x) <==> (old(list)@.contains(x) || term_mentions(
                            store@,
                            t,
                            x.0,
                            x.1,
                        )) by {
                        lemma_term_mentions(store@, t, x.0, x.1);
                        assert(first.contains(x) <==> (old(list)@.contains(x) || x == (
                            *f,
                            ts@.len() as usize,
                        )));
                        assert(gathered_terms(list@, first, store@, ts@, n as int));
                        assert(list@.contains(x) <==> (first.contains(x) || terms_mention(
                            store@,
                            ts@,
                            n as int,
                            x.0,
                            x.1,
                        )));
                    }
                }
            },
        }
    }
}

} // verus!
