//! Problems in the language of the solver that serves as oracle.
//!
//! There is one sort, `object`. A symbol is declared for each number of
//! arguments that it is used with, under its name followed by that number.
//! The variable bound by the quantifier at depth `d` is called `X` followed
//! by `d`.

use crate::collections::{Id, IdList};
use crate::formula::{Formula, FormulaView};
use crate::names::{introduced_name, symbol_name, Symbols};
use crate::store::{Store, StoreView};
use crate::symbol::Symbol;
use crate::signature::{members_mention, mentions};
use crate::term::{term_mentions, terms_mention, Term, TermView};
use crate::text::{decimal, decimal_digits};
use vstd::prelude::*;
use vstd::string::*;

verus! {

/// The names of the original symbols, with their arities.
pub type Names = Seq<(Seq<char>, usize)>;

/// The name of `symbol`.
pub open spec fn name_of(names: Names, symbol: Symbol) -> Seq<char> {
    match symbol {
        Symbol::Original(i) => names[i as int].0,
        Symbol::Introduced(n) => introduced_name(n),
    }
}

/// The name under which `symbol` is declared for `arity` arguments.
pub open spec fn declared_name(names: Names, symbol: Symbol, arity: nat) -> Seq<char> {
    name_of(names, symbol) + "_"@ + decimal_digits(arity)
}

/// Whether `symbol` has a name.
pub open spec fn is_named(names: Names, symbol: Symbol) -> bool {
    symbol matches Symbol::Original(i) ==> i < names.len()
}

/// Whether the term `t` can be written below `bound` quantifiers: its
/// symbols have names and its variables are bound.
pub open spec fn term_writable(s: StoreView, names: Names, t: Id, bound: nat) -> bool
    decreases t,
{
    t < s.terms.len() && match s.terms[t as int] {
        TermView::Var(n) => n < bound,
        TermView::Fn(f, ts) => is_named(names, f) && forall|i: int|
            0 <= i < ts.len() ==> (#[trigger] ts[i]) < t && term_writable(s, names, ts[i], bound),
    }
}

/// Whether each of the terms can be written.
pub open spec fn terms_writable(s: StoreView, names: Names, ts: Seq<Id>, bound: nat) -> bool {
    forall|i: int| 0 <= i < ts.len() ==> term_writable(s, names, #[trigger] ts[i], bound)
}

/// Whether the formula `f` can be written below `bound` quantifiers: its
/// symbols have names, its variables are bound, and no equation or
/// equivalence class in it is empty.
pub open spec fn writable(s: StoreView, names: Names, f: Id, bound: nat) -> bool
    decreases f,
{
    f < s.formulae.len() && match s.formulae[f as int] {
        FormulaView::T => true,
        FormulaView::F => true,
        FormulaView::Eq(ts) => ts.len() > 0 && terms_writable(s, names, ts, bound),
        FormulaView::Prd(p, ts) => is_named(names, p) && terms_writable(s, names, ts, bound),
        FormulaView::Not(p) => p < f && writable(s, names, p, bound),
        FormulaView::Imp(p, q) => p < f && q < f && writable(s, names, p, bound) && writable(
            s,
            names,
            q,
            bound,
        ),
        FormulaView::Or(ps) => forall|i: int|
            0 <= i < ps.len() ==> (#[trigger] ps[i]) < f && writable(s, names, ps[i], bound),
        FormulaView::And(ps) => forall|i: int|
            0 <= i < ps.len() ==> (#[trigger] ps[i]) < f && writable(s, names, ps[i], bound),
        FormulaView::Eqv(ps) => ps.len() > 0 && forall|i: int|
            0 <= i < ps.len() ==> (#[trigger] ps[i]) < f && writable(s, names, ps[i], bound),
        FormulaView::All(p) => p < f && writable(s, names, p, bound + 1),
        FormulaView::Ex(p) => p < f && writable(s, names, p, bound + 1),
    }
}

/// The first `n` of the terms `ts`, arguments of the term `parent`, each
/// after a blank.
pub open spec fn term_list_text(
    s: StoreView,
    names: Names,
    ts: Seq<Id>,
    n: nat,
    bound: nat,
    parent: Id,
) -> Seq<char>
    decreases parent, n + 1,
{
    if n == 0 || n > ts.len() {
        Seq::empty()
    } else {
        term_list_text(s, names, ts, (n - 1) as nat, bound, parent) + " "@ + (if ts[n - 1]
            < parent {
            term_text(s, names, ts[n - 1], bound)
        } else {
            Seq::empty()
        })
    }
}

/// The term `t` below `bound` quantifiers.
pub open spec fn term_text(s: StoreView, names: Names, t: Id, bound: nat) -> Seq<char>
    decreases t + 1, 0nat,
{
    if t >= s.terms.len() {
        Seq::empty()
    } else {
        match s.terms[t as int] {
            TermView::Var(n) => "X"@ + decimal_digits((bound - 1 - n) as nat),
            TermView::Fn(f, ts) => if ts.len() == 0 {
                declared_name(names, f, 0)
            } else {
                "("@ + declared_name(names, f, ts.len()) + term_list_text(
                    s,
                    names,
                    ts,
                    ts.len(),
                    bound,
                    t,
                ) + ")"@
            },
        }
    }
}

/// The first `n` of the terms `ts` of a formula, each after a blank.
pub open spec fn terms_text(s: StoreView, names: Names, ts: Seq<Id>, n: nat, bound: nat) -> Seq<
    char,
>
    decreases n,
{
    if n == 0 || n > ts.len() {
        Seq::empty()
    } else {
        terms_text(s, names, ts, (n - 1) as nat, bound) + " "@ + term_text(
            s,
            names,
            ts[n - 1],
            bound,
        )
    }
}

/// The first `n` of the members `ps` of the connective `parent`, each
/// after a blank.
pub open spec fn members_text(
    s: StoreView,
    names: Names,
    ps: Seq<Id>,
    n: nat,
    bound: nat,
    parent: Id,
) -> Seq<char>
    decreases parent, n + 1,
{
    if n == 0 || n > ps.len() {
        Seq::empty()
    } else {
        members_text(s, names, ps, (n - 1) as nat, bound, parent) + " "@ + (if ps[n - 1]
            < parent {
            formula_text(s, names, ps[n - 1], bound)
        } else {
            Seq::empty()
        })
    }
}

/// The formula `f` below `bound` quantifiers.
pub open spec fn formula_text(s: StoreView, names: Names, f: Id, bound: nat) -> Seq<char>
    decreases f + 1, 0nat,
{
    if f >= s.formulae.len() {
        Seq::empty()
    } else {
        match s.formulae[f as int] {
            FormulaView::T => "true"@,
            FormulaView::F => "false"@,
            FormulaView::Eq(ts) => if ts.len() == 1 {
                "true"@
            } else {
                "(="@ + terms_text(s, names, ts, ts.len(), bound) + ")"@
            },
            FormulaView::Prd(p, ts) => if ts.len() == 0 {
                declared_name(names, p, 0)
            } else {
                "("@ + declared_name(names, p, ts.len()) + terms_text(
                    s,
                    names,
                    ts,
                    ts.len(),
                    bound,
                ) + ")"@
            },
            FormulaView::Not(p) => "(not "@ + (if p < f {
                formula_text(s, names, p, bound)
            } else {
                Seq::empty()
            }) + ")"@,
            FormulaView::Imp(p, q) => "(=> "@ + (if p < f {
                formula_text(s, names, p, bound)
            } else {
                Seq::empty()
            }) + " "@ + (if q < f {
                formula_text(s, names, q, bound)
            } else {
                Seq::empty()
            }) + ")"@,
            FormulaView::And(ps) => "(and"@ + members_text(s, names, ps, ps.len(), bound, f)
                + ")"@,
            FormulaView::Or(ps) => "(or"@ + members_text(s, names, ps, ps.len(), bound, f) + ")"@,
            FormulaView::Eqv(ps) => if ps.len() == 1 {
                "true"@
            } else {
                "(="@ + members_text(s, names, ps, ps.len(), bound, f) + ")"@
            },
            FormulaView::All(p) => "(forall ((X"@ + decimal_digits(bound) + " object)) "@ + (if p
                < f {
                formula_text(s, names, p, bound + 1)
            } else {
                Seq::empty()
            }) + ")"@,
            FormulaView::Ex(p) => "(exists ((X"@ + decimal_digits(bound) + " object)) "@ + (if p
                < f {
                formula_text(s, names, p, bound + 1)
            } else {
                Seq::empty()
            }) + ")"@,
        }
    }
}

/// Appends the name under which `symbol` is declared for `arity` arguments.
fn write_name(out: &mut String, symbols: &Symbols, symbol: Symbol, arity: usize)
    requires
        symbols.wf(),
        is_named(symbols@, symbol),
    ensures
        final(out)@ == old(out)@ + declared_name(symbols@, symbol, arity as nat),
{
    let name = symbol_name(symbols, symbol);
    let number = decimal(arity);
    let ghost start = out@;
    out.append(name.as_str());
    out.append("_");
    out.append(number.as_str());
    proof {
        assert(out@ =~= start + declared_name(symbols@, symbol, arity as nat));
    }
}

/// Appends the term `t`.
pub fn write_term(out: &mut String, store: &Store, symbols: &Symbols, t: Id, bound: usize)
    requires
        store.wf(),
        symbols.wf(),
        term_writable(store@, symbols@, t, bound as nat),
    ensures
        final(out)@ == old(out)@ + term_text(store@, symbols@, t, bound as nat),
    decreases t + 1, 0nat,
{
    let ghost start = out@;
    match store.term(t) {
        Term::Var(n) => {
            let number = decimal(bound - 1 - *n);
            out.append("X");
            out.append(number.as_str());
            proof {
                assert(out@ =~= start + term_text(store@, symbols@, t, bound as nat));
            }
        },
        Term::Fn(f, ts) => {
            if ts.len() == 0 {
                write_name(out, symbols, *f, 0);
            } else {
                out.append("(");
                write_name(out, symbols, *f, ts.len());
                write_term_list(out, store, symbols, ts, bound, Ghost(t));
                out.append(")");
                proof {
                    assert(out@ =~= start + term_text(store@, symbols@, t, bound as nat));
                }
            }
        },
    }
}

/// Appends the arguments `ts` of the term `parent`, each after a blank.
fn write_term_list(
    out: &mut String,
    store: &Store,
    symbols: &Symbols,
    ts: &IdList,
    bound: usize,
    Ghost(parent): Ghost<Id>,
)
    requires
        store.wf(),
        symbols.wf(),
        forall|i: int|
            0 <= i < ts@.len() ==> (#[trigger] ts@[i]) < parent && term_writable(
                store@,
                symbols@,
                ts@[i],
                bound as nat,
            ),
    ensures
        final(out)@ == old(out)@ + term_list_text(
            store@,
            symbols@,
            ts@,
            ts@.len(),
            bound as nat,
            parent,
        ),
    decreases parent, 1nat,
{
    let ghost start = out@;
    let n = ts.len();
    let mut i: usize = 0;
    proof {
        assert(out@ =~= start + term_list_text(store@, symbols@, ts@, 0, bound as nat, parent));
    }
    while i < n
        invariant
            n == ts@.len(),
            i <= n,
            store.wf(),
            symbols.wf(),
            forall|k: int|
                0 <= k < ts@.len() ==> (#[trigger] ts@[k]) < parent && term_writable(
                    store@,
                    symbols@,
                    ts@[k],
                    bound as nat,
                ),
            out@ == start + term_list_text(store@, symbols@, ts@, i as nat, bound as nat, parent),
        decreases n - i,
    {
        let ghost before = out@;
        out.append(" ");
        write_term(out, store, symbols, ts.at(i), bound);
        proof {
            assert(out@ =~= start + term_list_text(
                store@,
                symbols@,
                ts@,
                (i + 1) as nat,
                bound as nat,
                parent,
            ));
        }
        i += 1;
    }
}

/// Appends the terms `ts` of a formula, each after a blank.
fn write_terms(out: &mut String, store: &Store, symbols: &Symbols, ts: &IdList, bound: usize)
    requires
        store.wf(),
        symbols.wf(),
        terms_writable(store@, symbols@, ts@, bound as nat),
    ensures
        final(out)@ == old(out)@ + terms_text(store@, symbols@, ts@, ts@.len(), bound as nat),
{
    let ghost start = out@;
    let n = ts.len();
    let mut i: usize = 0;
    proof {
        assert(out@ =~= start + terms_text(store@, symbols@, ts@, 0, bound as nat));
    }
    while i < n
        invariant
            n == ts@.len(),
            i <= n,
            store.wf(),
            symbols.wf(),
            terms_writable(store@, symbols@, ts@, bound as nat),
            out@ == start + terms_text(store@, symbols@, ts@, i as nat, bound as nat),
        decreases n - i,
    {
        out.append(" ");
        write_term(out, store, symbols, ts.at(i), bound);
        proof {
            assert(out@ =~= start + terms_text(
                store@,
                symbols@,
                ts@,
                (i + 1) as nat,
                bound as nat,
            ));
        }
        i += 1;
    }
}

/// Appends the members `ps` of the connective `parent`, each after a blank.
fn write_formula_list(
    out: &mut String,
    store: &Store,
    symbols: &Symbols,
    ps: &IdList,
    bound: usize,
    Ghost(parent): Ghost<Id>,
)
    requires
        store.wf(),
        symbols.wf(),
        bound + parent < usize::MAX,
        forall|i: int|
            0 <= i < ps@.len() ==> (#[trigger] ps@[i]) < parent && writable(
                store@,
                symbols@,
                ps@[i],
                bound as nat,
            ),
    ensures
        final(out)@ == old(out)@ + members_text(
            store@,
            symbols@,
            ps@,
            ps@.len(),
            bound as nat,
            parent,
        ),
    decreases parent, 1nat,
{
    let ghost start = out@;
    let n = ps.len();
    let mut i: usize = 0;
    proof {
        assert(out@ =~= start + members_text(store@, symbols@, ps@, 0, bound as nat, parent));
    }
    while i < n
        invariant
            n == ps@.len(),
            i <= n,
            store.wf(),
            symbols.wf(),
            bound + parent < usize::MAX,
            forall|k: int|
                0 <= k < ps@.len() ==> (#[trigger] ps@[k]) < parent && writable(
                    store@,
                    symbols@,
                    ps@[k],
                    bound as nat,
                ),
            out@ == start + members_text(store@, symbols@, ps@, i as nat, bound as nat, parent),
        decreases n - i,
    {
        out.append(" ");
        write_formula(out, store, symbols, ps.at(i), bound);
        proof {
            assert(out@ =~= start + members_text(
                store@,
                symbols@,
                ps@,
                (i + 1) as nat,
                bound as nat,
                parent,
            ));
        }
        i += 1;
    }
}

/// Appends the formula `f`, as a formula below `bound` quantifiers.
pub fn write_formula(out: &mut String, store: &Store, symbols: &Symbols, f: Id, bound: usize)
    requires
        store.wf(),
        symbols.wf(),
        bound + f < usize::MAX,
        writable(store@, symbols@, f, bound as nat),
    ensures
        final(out)@ == old(out)@ + formula_text(store@, symbols@, f, bound as nat),
    decreases f + 1, 0nat,
{
    let ghost start = out@;
    let ghost want = formula_text(store@, symbols@, f, bound as nat);
    match store.formula(f) {
        Formula::T => {
            out.append("true");
        },
        Formula::F => {
            out.append("false");
        },
        Formula::Eq(ts) => {
            if ts.len() == 1 {
                out.append("true");
            } else {
                out.append("(=");
                write_terms(out, store, symbols, ts.as_list(), bound);
                out.append(")");
            }
        },
        Formula::Prd(p, ts) => {
            if ts.len() == 0 {
                write_name(out, symbols, *p, 0);
            } else {
                out.append("(");
                write_name(out, symbols, *p, ts.len());
                write_terms(out, store, symbols, ts, bound);
                out.append(")");
            }
        },
        Formula::Not(p) => {
            out.append("(not ");
            write_formula(out, store, symbols, *p, bound);
            out.append(")");
        },
        Formula::Imp(p, q) => {
            out.append("(=> ");
            write_formula(out, store, symbols, *p, bound);
            out.append(" ");
            write_formula(out, store, symbols, *q, bound);
            out.append(")");
        },
        Formula::And(ps) => {
            out.append("(and");
            write_formula_list(out, store, symbols, ps.as_list(), bound, Ghost(f));
            out.append(")");
        },
        Formula::Or(ps) => {
            out.append("(or");
            write_formula_list(out, store, symbols, ps.as_list(), bound, Ghost(f));
            out.append(")");
        },
        Formula::Eqv(ps) => {
            if ps.len() == 1 {
                out.append("true");
            } else {
                out.append("(=");
                write_formula_list(out, store, symbols, ps.as_list(), bound, Ghost(f));
                out.append(")");
            }
        },
        Formula::All(p) => {
            let number = decimal(bound);
            out.append("(forall ((X");
            out.append(number.as_str());
            out.append(" object)) ");
            write_formula(out, store, symbols, *p, bound + 1);
            out.append(")");
        },
        Formula::Ex(p) => {
            let number = decimal(bound);
            out.append("(exists ((X");
            out.append(number.as_str());
            out.append(" object)) ");
            write_formula(out, store, symbols, *p, bound + 1);
            out.append(")");
        },
    }
    proof {
        assert(out@ =~= start + want);
    }
}

/// A symbol that a writable term mentions has a name.
pub proof fn lemma_term_mentions_named(
    s: StoreView,
    names: Names,
    t: Id,
    bound: nat,
    symbol: Symbol,
    arity: usize,
)
    requires
        term_writable(s, names, t, bound),
        term_mentions(s, t, symbol, arity),
    ensures
        is_named(names, symbol),
    decreases t,
{
    match s.terms[t as int] {
        TermView::Var(_) => {},
        TermView::Fn(g, ts) => {
            if !(g == symbol && ts.len() == arity) {
                let i = choose|i: int|
                    0 <= i < ts.len() && (#[trigger] ts[i]) < t && term_mentions(
                        s,
                        ts[i],
                        symbol,
                        arity,
                    );
                lemma_term_mentions_named(s, names, ts[i], bound, symbol, arity);
            }
        },
    }
}

/// A symbol that a writable formula mentions has a name.
pub proof fn lemma_mentions_named(
    s: StoreView,
    names: Names,
    f: Id,
    bound: nat,
    symbol: Symbol,
    arity: usize,
    predicate: bool,
)
    requires
        writable(s, names, f, bound),
        mentions(s, f, symbol, arity, predicate),
    ensures
        is_named(names, symbol),
    decreases f,
{
    match s.formulae[f as int] {
        FormulaView::Eq(ts) => {
            let n = ts.len() as int;
            assert(terms_mention(s, ts, n, symbol, arity));
            let i = choose|i: int|
                0 <= i < n && i < ts.len() && term_mentions(s, #[trigger] ts[i], symbol, arity);
            lemma_term_mentions_named(s, names, ts[i], bound, symbol, arity);
        },
        FormulaView::Prd(p, ts) => {
            if !predicate {
                let n = ts.len() as int;
                assert(terms_mention(s, ts, n, symbol, arity));
                let i = choose|i: int|
                    0 <= i < n && i < ts.len() && term_mentions(s, #[trigger] ts[i], symbol, arity);
                lemma_term_mentions_named(s, names, ts[i], bound, symbol, arity);
            }
        },
        FormulaView::Not(p) => {
            lemma_mentions_named(s, names, p, bound, symbol, arity, predicate);
        },
        FormulaView::All(p) => {
            lemma_mentions_named(s, names, p, bound + 1, symbol, arity, predicate);
        },
        FormulaView::Ex(p) => {
            lemma_mentions_named(s, names, p, bound + 1, symbol, arity, predicate);
        },
        FormulaView::Imp(p, q) => {
            if p < f && mentions(s, p, symbol, arity, predicate) {
                lemma_mentions_named(s, names, p, bound, symbol, arity, predicate);
            } else {
                lemma_mentions_named(s, names, q, bound, symbol, arity, predicate);
            }
        },
        FormulaView::Or(ps) => {
            let n = ps.len() as int;
            assert(members_mention(s, f, ps, n, symbol, arity, predicate));
            let i = choose|i: int|
                0 <= i < n && i < ps.len() && (#[trigger] ps[i]) < f && mentions(
                    s,
                    ps[i],
                    symbol,
                    arity,
                    predicate,
                );
            lemma_mentions_named(s, names, ps[i], bound, symbol, arity, predicate);
        },
        FormulaView::And(ps) => {
            let n = ps.len() as int;
            assert(members_mention(s, f, ps, n, symbol, arity, predicate));
            let i = choose|i: int|
                0 <= i < n && i < ps.len() && (#[trigger] ps[i]) < f && mentions(
                    s,
                    ps[i],
                    symbol,
                    arity,
                    predicate,
                );
            lemma_mentions_named(s, names, ps[i], bound, symbol, arity, predicate);
        },
        FormulaView::Eqv(ps) => {
            let n = ps.len() as int;
            assert(members_mention(s, f, ps, n, symbol, arity, predicate));
            let i = choose|i: int|
                0 <= i < n && i < ps.len() && (#[trigger] ps[i]) < f && mentions(
                    s,
                    ps[i],
                    symbol,
                    arity,
                    predicate,
                );
            lemma_mentions_named(s, names, ps[i], bound, symbol, arity, predicate);
        },
        _ => {},
    }
}

/// The sorts of `n` arguments: `object`, `n` times, with blanks between.
pub open spec fn arguments_text(n: nat) -> Seq<char>
    decreases n,
{
    if n == 0 {
        Seq::empty()
    } else if n == 1 {
        "object"@
    } else {
        arguments_text((n - 1) as nat) + " object"@
    }
}

/// The declaration of `symbol` for `arity` arguments with the result sort
/// `sort`.
pub open spec fn declaration_text(
    names: Names,
    symbol: Symbol,
    arity: usize,
    sort: Seq<char>,
) -> Seq<char> {
    "(declare-fun "@ + declared_name(names, symbol, arity as nat) + " ("@ + arguments_text(
        arity as nat,
    ) + ") "@ + sort + ")\n"@
}

/// The declarations of the first `n` of `list`.
pub open spec fn declarations_text(
    names: Names,
    list: Seq<(Symbol, usize)>,
    n: nat,
    sort: Seq<char>,
) -> Seq<char>
    decreases n,
{
    if n == 0 || n > list.len() {
        Seq::empty()
    } else {
        declarations_text(names, list, (n - 1) as nat, sort) + declaration_text(
            names,
            list[n - 1].0,
            list[n - 1].1,
            sort,
        )
    }
}

/// Whether `list` holds, each once, the symbols of `f` with the numbers of
/// their arguments: the predicate symbols if `predicate`, else the function
/// symbols.
pub open spec fn symbols_of(
    s: StoreView,
    f: Id,
    predicate: bool,
    list: Seq<(Symbol, usize)>,
) -> bool {
    &&& list.no_duplicates()
    &&& forall|symbol: Symbol, arity: usize|
        list.contains((symbol, arity)) <==> mentions(s, f, symbol, arity, predicate)
}

/// The problem of whether `f` can be satisfied, with the predicate symbols
/// declared in the order of `predicates` and the function symbols in the
/// order of `functions`.
pub open spec fn problem_text(
    s: StoreView,
    names: Names,
    f: Id,
    predicates: Seq<(Symbol, usize)>,
    functions: Seq<(Symbol, usize)>,
) -> Seq<char> {
    "(declare-sort object)\n"@ + declarations_text(
        names,
        predicates,
        predicates.len(),
        "Bool"@,
    ) + declarations_text(names, functions, functions.len(), "object"@) + "(assert "@
        + formula_text(s, names, f, 0) + ")\n(check-sat)\n"@
}

/// Whether `text` is the problem of whether `f` can be satisfied: the sort,
/// a declaration for each predicate symbol and each function symbol of
/// `f`, the formula, and the question.
pub open spec fn is_problem(s: StoreView, names: Names, f: Id, text: Seq<char>) -> bool {
    exists|predicates: Seq<(Symbol, usize)>, functions: Seq<(Symbol, usize)>|
        symbols_of(s, f, true, predicates) && symbols_of(s, f, false, functions) && text
            == #[trigger] problem_text(s, names, f, predicates, functions)
}

/// Appends the sorts of `n` arguments.
fn write_arguments(out: &mut String, n: usize)
    ensures
        final(out)@ == old(out)@ + arguments_text(n as nat),
{
    let ghost start = out@;
    let mut i: usize = 0;
    proof {
        assert(out@ =~= start + arguments_text(0));
    }
    while i < n
        invariant
            i <= n,
            out@ == start + arguments_text(i as nat),
        decreases n - i,
    {
        if i == 0 {
            out.append("object");
        } else {
            out.append(" object");
        }
        proof {
            assert(out@ =~= start + arguments_text((i + 1) as nat));
        }
        i += 1;
    }
}

/// Appends a declaration for each of `list`.
fn write_declarations(
    out: &mut String,
    symbols: &Symbols,
    list: &Vec<(Symbol, usize)>,
    sort: &str,
)
    requires
        symbols.wf(),
        forall|i: int| 0 <= i < list@.len() ==> is_named(symbols@, (#[trigger] list@[i]).0),
    ensures
        final(out)@ == old(out)@ + declarations_text(symbols@, list@, list@.len(), sort@),
{
    let ghost start = out@;
    let n = list.len();
    let mut i: usize = 0;
    proof {
        assert(out@ =~= start + declarations_text(symbols@, list@, 0, sort@));
    }
    while i < n
        invariant
            n == list@.len(),
            i <= n,
            symbols.wf(),
            forall|k: int| 0 <= k < list@.len() ==> is_named(symbols@, (#[trigger] list@[k]).0),
            out@ == start + declarations_text(symbols@, list@, i as nat, sort@),
        decreases n - i,
    {
        let (symbol, arity) = list[i];
        proof {
            assert(is_named(symbols@, list@[i as int].0));
        }
        out.append("(declare-fun ");
        write_name(out, symbols, symbol, arity);
        out.append(" (");
        write_arguments(out, arity);
        out.append(") ");
        out.append(sort);
        out.append(")\n");
        proof {
            assert(out@ =~= start + declarations_text(symbols@, list@, (i + 1) as nat, sort@));
        }
        i += 1;
    }
}

/// The problem of whether the closed formula `f` can be satisfied.
pub fn write_problem(store: &Store, symbols: &Symbols, f: Id) -> (text: String)
    requires
        store.wf(),
        symbols.wf(),
        f < usize::MAX,
        writable(store@, symbols@, f, 0),
    ensures
        is_problem(store@, symbols@, f, text@),
{
    let predicates = Formula::predicate_symbols(store, f);
    let functions = Formula::function_symbols(store, f);
    proof {
        assert forall|i: int| 0 <= i < predicates@.len() implies is_named(
            symbols@,
            (#[trigger] predicates@[i]).0,
        ) by {
            let x = predicates@[i];
            assert(predicates@.contains((x.0, x.1)));
            lemma_mentions_named(store@, symbols@, f, 0, x.0, x.1, true);
        }
        assert forall|i: int| 0 <= i < functions@.len() implies is_named(
            symbols@,
            (#[trigger] functions@[i]).0,
        ) by {
            let x = functions@[i];
            assert(functions@.contains((x.0, x.1)));
            lemma_mentions_named(store@, symbols@, f, 0, x.0, x.1, false);
        }
    }
    let mut text = String::from_str("(declare-sort object)\n");
    write_declarations(&mut text, symbols, &predicates, "Bool");
    write_declarations(&mut text, symbols, &functions, "object");
    text.append("(assert ");
    write_formula(&mut text, store, symbols, f, 0);
    text.append(")\n(check-sat)\n");
    proof {
        assert(text@ =~= problem_text(store@, symbols@, f, predicates@, functions@));
        assert(symbols_of(store@, f, true, predicates@));
        assert(symbols_of(store@, f, false, functions@));
    }
    text
}

/// Whether `symbol` has a name.
fn has_name(symbols: &Symbols, symbol: Symbol) -> (named: bool)
    requires
        symbols.wf(),
    ensures
        named == is_named(symbols@, symbol),
{
    match symbol {
        Symbol::Original(i) => i < symbols.len(),
        Symbol::Introduced(_) => true,
    }
}

/// Whether the term `t` can be written below `bound` quantifiers.
pub fn term_is_writable(store: &Store, symbols: &Symbols, t: Id, bound: usize) -> (yes: bool)
    requires
        store.wf(),
        symbols.wf(),
        t < store@.terms.len(),
    ensures
        yes == term_writable(store@, symbols@, t, bound as nat),
    decreases t,
{
    proof {
        assert(store@.term_ok(store@.terms[t as int], t as int));
    }
    match store.term(t) {
        Term::Var(n) => *n < bound,
        Term::Fn(f, ts) => {
            if !has_name(symbols, *f) {
                return false;
            }
            let n = ts.len();
            let mut i: usize = 0;
            while i < n
                invariant
                    n == ts@.len(),
                    i <= n,
                    store.wf(),
                    symbols.wf(),
                    t < store@.terms.len(),
                    store@.terms[t as int] == TermView::Fn(*f, ts@),
                    forall|k: int| 0 <= k < ts@.len() ==> ts@[k] < t,
                    forall|k: int|
                        0 <= k < i ==> term_writable(
                            store@,
                            symbols@,
                            #[trigger] ts@[k],
                            bound as nat,
                        ),
                decreases n - i,
            {
                if !term_is_writable(store, symbols, ts.at(i), bound) {
                    proof {
                        assert(store@.terms[t as int] == TermView::Fn(*f, ts@));
                        assert(!term_writable(store@, symbols@, ts@[i as int], bound as nat));
                    }
                    return false;
                }
                i += 1;
            }
            proof {
                assert(store@.terms[t as int] == TermView::Fn(*f, ts@));
            }
            true
        },
    }
}

/// Whether each of the terms `ts` can be written below `bound` quantifiers.
fn terms_are_writable(store: &Store, symbols: &Symbols, ts: &IdList, bound: usize) -> (yes: bool)
    requires
        store.wf(),
        symbols.wf(),
        forall|k: int| 0 <= k < ts@.len() ==> ts@[k] < store@.terms.len(),
    ensures
        yes == terms_writable(store@, symbols@, ts@, bound as nat),
{
    let n = ts.len();
    let mut i: usize = 0;
    while i < n
        invariant
            n == ts@.len(),
            i <= n,
            store.wf(),
            symbols.wf(),
            forall|k: int| 0 <= k < ts@.len() ==> ts@[k] < store@.terms.len(),
            forall|k: int|
                0 <= k < i ==> term_writable(store@, symbols@, #[trigger] ts@[k], bound as nat),
        decreases n - i,
    {
        if !term_is_writable(store, symbols, ts.at(i), bound) {
            return false;
        }
        i += 1;
    }
    true
}

/// Whether the formula `f` can be written below `bound` quantifiers.
pub fn is_writable(store: &Store, symbols: &Symbols, f: Id, bound: usize) -> (yes: bool)
    requires
        store.wf(),
        symbols.wf(),
        f < store@.formulae.len(),
        bound + f < usize::MAX,
    ensures
        yes == writable(store@, symbols@, f, bound as nat),
    decreases f + 1, 0nat,
{
    proof {
        assert(store@.formula_ok(store@.formulae[f as int], f as int));
    }
    match store.formula(f) {
        Formula::T => true,
        Formula::F => true,
        Formula::Eq(ts) => ts.len() > 0 && terms_are_writable(store, symbols, ts.as_list(), bound),
        Formula::Prd(p, ts) => has_name(symbols, *p) && terms_are_writable(
            store,
            symbols,
            ts,
            bound,
        ),
        Formula::Not(p) => is_writable(store, symbols, *p, bound),
        Formula::Imp(p, q) => is_writable(store, symbols, *p, bound) && is_writable(
            store,
            symbols,
            *q,
            bound,
        ),
        Formula::Or(ps) => members_are_writable(store, symbols, ps.as_list(), bound, Ghost(f)),
        Formula::And(ps) => members_are_writable(store, symbols, ps.as_list(), bound, Ghost(f)),
        Formula::Eqv(ps) => ps.len() > 0 && members_are_writable(
            store,
            symbols,
            ps.as_list(),
            bound,
            Ghost(f),
        ),
        Formula::All(p) => is_writable(store, symbols, *p, bound + 1),
        Formula::Ex(p) => is_writable(store, symbols, *p, bound + 1),
    }
}

/// Whether each of the members `ps` of the connective `parent` can be
/// written below `bound` quantifiers.
fn members_are_writable(
    store: &Store,
    symbols: &Symbols,
    ps: &IdList,
    bound: usize,
    Ghost(parent): Ghost<Id>,
) -> (yes: bool)
    requires
        store.wf(),
        symbols.wf(),
        parent < store@.formulae.len(),
        bound + parent < usize::MAX,
        forall|k: int| 0 <= k < ps@.len() ==> ps@[k] < parent,
    ensures
        yes == forall|i: int|
            0 <= i < ps@.len() ==> (#[trigger] ps@[i]) < parent && writable(
                store@,
                symbols@,
                ps@[i],
                bound as nat,
            ),
    decreases parent, 1nat,
{
    let n = ps.len();
    let mut i: usize = 0;
    while i < n
        invariant
            n == ps@.len(),
            i <= n,
            store.wf(),
            symbols.wf(),
            parent < store@.formulae.len(),
            bound + parent < usize::MAX,
            forall|k: int| 0 <= k < ps@.len() ==> ps@[k] < parent,
            forall|k: int|
                0 <= k < i ==> writable(store@, symbols@, #[trigger] ps@[k], bound as nat),
        decreases n - i,
    {
        if !is_writable(store, symbols, ps.at(i), bound) {
            return false;
        }
        i += 1;
    }
    true
}

/// The problem of whether `f` can be satisfied, if `f` is a closed formula
/// whose symbols have names and that holds no empty equation or equivalence
/// class.
pub fn problem(store: &Store, symbols: &Symbols, f: Id) -> (text: Option<String>)
    requires
        store.wf(),
        symbols.wf(),
    ensures
        match text {
            Some(text) => f < store@.formulae.len() && writable(store@, symbols@, f, 0)
                && is_problem(store@, symbols@, f, text@),
            None => !(f < usize::MAX && writable(store@, symbols@, f, 0)),
        },
{
    if f < store.formula_count() && f < usize::MAX && is_writable(store, symbols, f, 0) {
        Some(write_problem(store, symbols, f))
    } else {
        None
    }
}

} // verus!
