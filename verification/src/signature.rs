//! The symbols that a formula mentions.

use crate::collections::{Id, IdList};
use crate::formula::{Formula, FormulaView};
use crate::store::{Store, StoreView};
use crate::symbol::Symbol;
use crate::term::{
    gathered, gathered_terms, lemma_terms_mention_step, note, term_mentions, terms_mention, Term,
};
use vstd::prelude::*;

verus! {

/// Whether one of the first `n` members `ps` of the connective `f` mentions
/// the symbol.
pub open spec fn members_mention(
    s: StoreView,
    f: Id,
    ps: Seq<Id>,
    n: int,
    symbol: Symbol,
    arity: usize,
    predicate: bool,
) -> bool
    decreases f, 0nat,
{
    exists|i: int|
        0 <= i < n && i < ps.len() && (#[trigger] ps[i]) < f && mentions(
            s,
            ps[i],
            symbol,
            arity,
            predicate,
        )
}

/// Whether `symbol` is applied to `arity` arguments somewhere in `f`: as a
/// predicate symbol if `predicate`, else as a function symbol.
pub open spec fn mentions(s: StoreView, f: Id, symbol: Symbol, arity: usize, predicate: bool) -> bool
    decreases f, 1nat,
{
    f < s.formulae.len() && match s.formulae[f as int] {
        FormulaView::T => false,
        FormulaView::F => false,
        FormulaView::Eq(ts) => !predicate && terms_mention(s, ts, ts.len() as int, symbol, arity),
        FormulaView::Prd(p, ts) => if predicate {
            p == symbol && ts.len() == arity
        } else {
            terms_mention(s, ts, ts.len() as int, symbol, arity)
        },
        FormulaView::Not(p) => p < f && mentions(s, p, symbol, arity, predicate),
        FormulaView::All(p) => p < f && mentions(s, p, symbol, arity, predicate),
        FormulaView::Ex(p) => p < f && mentions(s, p, symbol, arity, predicate),
        FormulaView::Imp(p, q) => (p < f && mentions(s, p, symbol, arity, predicate)) || (q < f
            && mentions(s, q, symbol, arity, predicate)),
        FormulaView::Or(ps) => members_mention(
            s,
            f,
            ps,
            ps.len() as int,
            symbol,
            arity,
            predicate,
        ),
        FormulaView::And(ps) => members_mention(
            s,
            f,
            ps,
            ps.len() as int,
            symbol,
            arity,
            predicate,
        ),
        FormulaView::Eqv(ps) => members_mention(
            s,
            f,
            ps,
            ps.len() as int,
            symbol,
            arity,
            predicate,
        ),
    }
}

/// One more member mentions what the members before it mention, and what
/// it mentions itself.
pub proof fn lemma_members_mention_step(
    s: StoreView,
    f: Id,
    ps: Seq<Id>,
    n: int,
    symbol: Symbol,
    arity: usize,
    predicate: bool,
)
    requires
        0 <= n < ps.len(),
        ps[n] < f,
    ensures
        members_mention(s, f, ps, n + 1, symbol, arity, predicate) <==> (members_mention(
            s,
            f,
            ps,
            n,
            symbol,
            arity,
            predicate,
        ) || mentions(s, ps[n], symbol, arity, predicate)),
        !members_mention(s, f, ps, 0, symbol, arity, predicate),
{
    if members_mention(s, f, ps, n, symbol, arity, predicate) {
        let i = choose|i: int|
            0 <= i < n && i < ps.len() && (#[trigger] ps[i]) < f && mentions(
                s,
                ps[i],
                symbol,
                arity,
                predicate,
            );
        assert(0 <= i < n + 1 && ps[i] < f && mentions(s, ps[i], symbol, arity, predicate));
    }
    if mentions(s, ps[n], symbol, arity, predicate) {
        assert(0 <= n < n + 1 && ps[n] < f && mentions(s, ps[n], symbol, arity, predicate));
    }
    if members_mention(s, f, ps, n + 1, symbol, arity, predicate) {
        let i = choose|i: int|
            0 <= i < n + 1 && i < ps.len() && (#[trigger] ps[i]) < f && mentions(
                s,
                ps[i],
                symbol,
                arity,
                predicate,
            );
        if i < n {
            assert(0 <= i < n && ps[i] < f && mentions(s, ps[i], symbol, arity, predicate));
        }
    }
}

/// Whether `list` holds the pairs in `first` and the pairs that the first
/// `n` members mention.
pub open spec fn gathered_members(
    list: Seq<(Symbol, usize)>,
    first: Seq<(Symbol, usize)>,
    s: StoreView,
    f: Id,
    ps: Seq<Id>,
    n: int,
    predicate: bool,
) -> bool {
    forall|x: (Symbol, usize)|
        list.contains(x) <==> (first.contains(x) || members_mention(
            s,
            f,
            ps,
            n,
            x.0,
            x.1,
            predicate,
        ))
}

/// Adds to `list` the function symbols of the terms `ts`.
fn terms_symbols(store: &Store, ts: &IdList, list: &mut Vec<(Symbol, usize)>)
    requires
        store.wf(),
        forall|i: int| 0 <= i < ts@.len() ==> ts@[i] < store@.terms.len(),
        old(list)@.no_duplicates(),
    ensures
        final(list)@.no_duplicates(),
        gathered_terms(final(list)@, old(list)@, store@, ts@, ts@.len() as int),
{
    let n = ts.len();
    let mut i: usize = 0;
    let ghost first = list@;
    proof {
        assert forall|x: (Symbol, usize)|
            list@.contains(x) <==> (first.contains(x) || terms_mention(
                store@,
                ts@,
                0,
                x.0,
                x.1,
            )) by {
            if terms_mention(store@, ts@, 0, x.0, x.1) {
                let j = choose|j: int|
                    0 <= j < 0 && j < ts@.len() && term_mentions(
                        store@,
                        #[trigger] ts@[j],
                        x.0,
                        x.1,
                    );
            }
        }
        assert(gathered_terms(list@, first, store@, ts@, 0));
    }
    while i < n
        invariant
            n == ts@.len(),
            i <= n,
            store.wf(),
            forall|j: int| 0 <= j < ts@.len() ==> ts@[j] < store@.terms.len(),
            list@.no_duplicates(),
            gathered_terms(list@, first, store@, ts@, i as int),
        decreases n - i,
    {
        let ghost sofar = list@;
        Term::function_symbols(store, ts.at(i), list);
        proof {
            assert(gathered_terms(sofar, first, store@, ts@, i as int));
            assert forall|x: (Symbol, usize)|
                list@.contains(x) <==> (first.contains(x) || terms_mention(
                    store@,
                    ts@,
                    i + 1,
                    x.0,
                    x.1,
                )) by {
                lemma_terms_mention_step(store@, ts@, i as int, x.0, x.1);
                assert(list@.contains(x) <==> (sofar.contains(x) || term_mentions(
                    store@,
                    ts@[i as int],
                    x.0,
                    x.1,
                )));
                assert(sofar.contains(x) <==> (first.contains(x) || terms_mention(
                    store@,
                    ts@,
                    i as int,
                    x.0,
                    x.1,
                )));
            }
            assert(gathered_terms(list@, first, store@, ts@, i + 1));
        }
        i += 1;
    }
}

impl Formula {
    /// Adds to `list` the symbols of `f`, each with the number of its
    /// arguments: the predicate symbols if `predicate`, else the function
    /// symbols.
    pub fn symbols(store: &Store, f: Id, predicate: bool, list: &mut Vec<(Symbol, usize)>)
        requires
            store.wf(),
            f < store@.formulae.len(),
            old(list)@.no_duplicates(),
        ensures
            gathered(
                final(list)@,
                old(list)@,
                |symbol: Symbol, arity: usize| mentions(store@, f, symbol, arity, predicate),
            ),
        decreases f, 1nat,
    {
        proof {
            assert(store@.formula_ok(store@.formulae[f as int], f as int));
        }
        match store.formula(f) {
            Formula::T | Formula::F => {},
            Formula::Eq(ts) => {
                if !predicate {
                    terms_symbols(store, ts.as_list(), list);
                }
            },
            Formula::Prd(p, ts) => {
                if predicate {
                    note(list, *p, ts.len());
                } else {
                    terms_symbols(store, ts, list);
                }
            },
            Formula::Not(p) => {
                Formula::symbols(store, *p, predicate, list);
            },
            Formula::All(p) => {
                Formula::symbols(store, *p, predicate, list);
            },
            Formula::Ex(p) => {
                Formula::symbols(store, *p, predicate, list);
            },
            Formula::Imp(p, q) => {
                Formula::symbols(store, *p, predicate, list);
                let ghost middle = list@;
                Formula::symbols(store, *q, predicate, list);
                proof {
                    assert forall|x: (Symbol, usize)|
                        list@.contains(x) <==> (old(list)@.contains(x) || mentions(
                            store@,
                            f,
                            x.0,
                            x.1,
                            predicate,
                        )) by {
                        assert(middle.contains(x) <==> (old(list)@.contains(x) || mentions(
                            store@,
                            *p,
                            x.0,
                            x.1,
                            predicate,
                        )));
                        assert(list@.contains(x) <==> (middle.contains(x) || mentions(
                            store@,
                            *q,
                            x.0,
                            x.1,
                            predicate,
                        )));
                    }
                }
            },
            Formula::Or(ps) => {
                Formula::members_symbols(store, ps.as_list(), predicate, list, Ghost(f));
            },
            Formula::And(ps) => {
                Formula::members_symbols(store, ps.as_list(), predicate, list, Ghost(f));
            },
            Formula::Eqv(ps) => {
                Formula::members_symbols(store, ps.as_list(), predicate, list, Ghost(f));
            },
        }
    }

    /// Adds to `list` the symbols of the members `ps` of the connective `f`.
    fn members_symbols(
        store: &Store,
        ps: &IdList,
        predicate: bool,
        list: &mut Vec<(Symbol, usize)>,
        Ghost(f): Ghost<Id>,
    )
        requires
            store.wf(),
            f < store@.formulae.len(),
            forall|i: int| 0 <= i < ps@.len() ==> ps@[i] < f,
            old(list)@.no_duplicates(),
        ensures
            final(list)@.no_duplicates(),
            gathered_members(
                final(list)@,
                old(list)@,
                store@,
                f,
                ps@,
                ps@.len() as int,
                predicate,
            ),
        decreases f, 0nat,
    {
        let n = ps.len();
        let mut i: usize = 0;
        let ghost first = list@;
        proof {
            assert forall|x: (Symbol, usize)|
                list@.contains(x) <==> (first.contains(x) || members_mention(
                    store@,
                    f,
                    ps@,
                    0,
                    x.0,
                    x.1,
                    predicate,
                )) by {
                if members_mention(store@, f, ps@, 0, x.0, x.1, predicate) {
                    let j = choose|j: int|
                        0 <= j < 0 && j < ps@.len() && (#[trigger] ps@[j]) < f && mentions(
                            store@,
                            ps@[j],
                            x.0,
                            x.1,
                            predicate,
                        );
                }
            }
            assert(gathered_members(list@, first, store@, f, ps@, 0, predicate));
        }
        while i < n
            invariant
                n == ps@.len(),
                i <= n,
                store.wf(),
                f < store@.formulae.len(),
                forall|j: int| 0 <= j < ps@.len() ==> ps@[j] < f,
                list@.no_duplicates(),
                gathered_members(list@, first, store@, f, ps@, i as int, predicate),
            decreases n - i,
        {
            let ghost sofar = list@;
            Formula::symbols(store, ps.at(i), predicate, list);
            proof {
                assert(gathered_members(sofar, first, store@, f, ps@, i as int, predicate));
                assert forall|x: (Symbol, usize)|
                    list@.contains(x) <==> (first.contains(x) || members_mention(
                        store@,
                        f,
                        ps@,
                        i + 1,
                        x.0,
                        x.1,
                        predicate,
                    )) by {
                    lemma_members_mention_step(store@, f, ps@, i as int, x.0, x.1, predicate);
                    assert(list@.contains(x) <==> (sofar.contains(x) || mentions(
                        store@,
                        ps@[i as int],
                        x.0,
                        x.1,
                        predicate,
                    )));
                    assert(sofar.contains(x) <==> (first.contains(x) || members_mention(
                        store@,
                        f,
                        ps@,
                        i as int,
                        x.0,
                        x.1,
                        predicate,
                    )));
                }
                assert(gathered_members(list@, first, store@, f, ps@, i + 1, predicate));
            }
            i += 1;
        }
    }

    /// The function symbols of `f`, each once, with the number of its
    /// arguments.
    pub fn function_symbols(store: &Store, f: Id) -> (list: Vec<(Symbol, usize)>)
        requires
            store.wf(),
            f < store@.formulae.len(),
        ensures
            list@.no_duplicates(),
            forall|symbol: Symbol, arity: usize|
                list@.contains((symbol, arity)) <==> mentions(store@, f, symbol, arity, false),
    {
        let mut list: Vec<(Symbol, usize)> = Vec::new();
        Formula::symbols(store, f, false, &mut list);
        proof {
            assert forall|symbol: Symbol, arity: usize|
                list@.contains((symbol, arity)) <==> mentions(store@, f, symbol, arity, false) by {
                let x = (symbol, arity);
                assert(list@.contains(x) <==> (Seq::<(Symbol, usize)>::empty().contains(x)
                    || mentions(store@, f, x.0, x.1, false)));
            }
        }
        list
    }

    /// The predicate symbols of `f`, each once, with the number of its
    /// arguments.
    pub fn predicate_symbols(store: &Store, f: Id) -> (list: Vec<(Symbol, usize)>)
        requires
            store.wf(),
            f < store@.formulae.len(),
        ensures
            list@.no_duplicates(),
            forall|symbol: Symbol, arity: usize|
                list@.contains((symbol, arity)) <==> mentions(store@, f, symbol, arity, true),
    {
        let mut list: Vec<(Symbol, usize)> = Vec::new();
        Formula::symbols(store, f, true, &mut list);
        proof {
            assert forall|symbol: Symbol, arity: usize|
                list@.contains((symbol, arity)) <==> mentions(store@, f, symbol, arity, true) by {
                let x = (symbol, arity);
                assert(list@.contains(x) <==> (Seq::<(Symbol, usize)>::empty().contains(x)
                    || mentions(store@, f, x.0, x.1, true)));
            }
        }
        list
    }
}

} // verus!
