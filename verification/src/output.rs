//! Formulae as statements of first-order form, for the refutation that is
//! printed.
//!
//! Every formula is written as a unit: a constant, an atom, a negated unit,
//! or a formula in parentheses. The variable bound by the quantifier at
//! depth `d` is called `X` followed by `d`.

use crate::collections::{Id, IdList};
use crate::formula::{Formula, FormulaView};
use crate::names::{symbol_name, Symbols};
use crate::smtlib2::{is_named, name_of, term_is_writable, term_writable, Names};
use crate::store::{Store, StoreView};
use crate::symbol::Symbol;
use crate::term::{Term, TermView};
use crate::text::{decimal, decimal_digits, hexadecimal, hexadecimal_digits};
use vstd::prelude::*;
use vstd::string::*;

verus! {

/// Whether the formula `f` can be printed below `bound` quantifiers: its
/// symbols have names and its variables are bound.
pub open spec fn printable(s: StoreView, names: Names, f: Id, bound: nat) -> bool
    decreases f,
{
    f < s.formulae.len() && match s.formulae[f as int] {
        FormulaView::T => true,
        FormulaView::F => true,
        FormulaView::Eq(ts) => forall|i: int|
            0 <= i < ts.len() ==> term_writable(s, names, #[trigger] ts[i], bound),
        FormulaView::Prd(p, ts) => is_named(names, p) && forall|i: int|
            0 <= i < ts.len() ==> term_writable(s, names, #[trigger] ts[i], bound),
        FormulaView::Not(p) => p < f && printable(s, names, p, bound),
        FormulaView::Imp(p, q) => p < f && q < f && printable(s, names, p, bound) && printable(
            s,
            names,
            q,
            bound,
        ),
        FormulaView::Or(ps) => forall|i: int|
            0 <= i < ps.len() ==> (#[trigger] ps[i]) < f && printable(s, names, ps[i], bound),
        FormulaView::And(ps) => forall|i: int|
            0 <= i < ps.len() ==> (#[trigger] ps[i]) < f && printable(s, names, ps[i], bound),
        FormulaView::Eqv(ps) => forall|i: int|
            0 <= i < ps.len() ==> (#[trigger] ps[i]) < f && printable(s, names, ps[i], bound),
        FormulaView::All(p) => p < f && printable(s, names, p, bound + 1),
        FormulaView::Ex(p) => p < f && printable(s, names, p, bound + 1),
    }
}

/// The separator before the item at position `i` of a list.
pub open spec fn before(i: int, separator: Seq<char>) -> Seq<char> {
    if i > 0 {
        separator
    } else {
        Seq::empty()
    }
}

/// The first `n` of the terms `ts`, all below `parent`, with a comma between
/// each two.
pub open spec fn arguments_text(
    s: StoreView,
    names: Names,
    ts: Seq<Id>,
    n: nat,
    bound: nat,
    parent: nat,
) -> Seq<char>
    decreases parent, n + 1,
{
    if n == 0 || n > ts.len() {
        Seq::empty()
    } else {
        arguments_text(s, names, ts, (n - 1) as nat, bound, parent) + before(n - 1, ","@) + (
        if ts[n - 1] < parent {
            term_text(s, names, ts[n - 1], bound)
        } else {
            Seq::empty()
        })
    }
}

/// The term `t` below `bound` quantifiers: a variable, a constant, or a
/// symbol applied to its arguments.
pub open spec fn term_text(s: StoreView, names: Names, t: Id, bound: nat) -> Seq<char>
    decreases t + 1, 0nat,
{
    if t >= s.terms.len() {
        Seq::empty()
    } else {
        match s.terms[t as int] {
            TermView::Var(n) => "X"@ + decimal_digits((bound - 1 - n) as nat),
            TermView::Fn(f, ts) => if ts.len() == 0 {
                name_of(names, f)
            } else {
                name_of(names, f) + "("@ + arguments_text(s, names, ts, ts.len(), bound, t as nat)
                    + ")"@
            },
        }
    }
}

/// The first `n` equations between a term of `ts` and the next, with `&`
/// between each two.
pub open spec fn equations_text(
    s: StoreView,
    names: Names,
    ts: Seq<Id>,
    n: nat,
    bound: nat,
) -> Seq<char>
    decreases n,
{
    if n == 0 || n >= ts.len() {
        Seq::empty()
    } else {
        equations_text(s, names, ts, (n - 1) as nat, bound) + before(n - 1, " & "@) + term_text(
            s,
            names,
            ts[n - 1],
            bound,
        ) + " = "@ + term_text(s, names, ts[n as int], bound)
    }
}

/// The text of the member `p` of the connective `parent`.
pub open spec fn member_text(s: StoreView, names: Names, p: Id, bound: nat, parent: Id) -> Seq<
    char,
>
    decreases parent, 1nat,
{
    if p < parent {
        formula_text(s, names, p, bound)
    } else {
        Seq::empty()
    }
}

/// The first `n` of the members `ps` of the connective `parent`, with
/// `separator` between each two.
pub open spec fn members_text(
    s: StoreView,
    names: Names,
    ps: Seq<Id>,
    n: nat,
    bound: nat,
    parent: Id,
    separator: Seq<char>,
) -> Seq<char>
    decreases parent, n + 1,
{
    if n == 0 || n > ps.len() {
        Seq::empty()
    } else {
        members_text(s, names, ps, (n - 1) as nat, bound, parent, separator) + before(
            n - 1,
            separator,
        ) + member_text(s, names, ps[n - 1], bound, parent)
    }
}

/// The first `n` equivalences between a member of `ps` and the next, each
/// in parentheses, with `&` between each two.
pub open spec fn equivalences_text(
    s: StoreView,
    names: Names,
    ps: Seq<Id>,
    n: nat,
    bound: nat,
    parent: Id,
) -> Seq<char>
    decreases parent, n + 1,
{
    if n == 0 || n >= ps.len() {
        Seq::empty()
    } else {
        equivalences_text(s, names, ps, (n - 1) as nat, bound, parent) + before(n - 1, " & "@)
            + "("@ + member_text(s, names, ps[n - 1], bound, parent) + " <=> "@ + member_text(
            s,
            names,
            ps[n as int],
            bound,
            parent,
        ) + ")"@
    }
}

/// The formula `f` below `bound` quantifiers. An equation of several terms
/// is the conjunction of the equations between neighbours, and so for an
/// equivalence; of fewer than two it is `$true`, as is the empty
/// conjunction, and the empty disjunction is `$false`.
pub open spec fn formula_text(s: StoreView, names: Names, f: Id, bound: nat) -> Seq<char>
    decreases f + 1, 0nat,
{
    if f >= s.formulae.len() {
        Seq::empty()
    } else {
        match s.formulae[f as int] {
            FormulaView::T => "$true"@,
            FormulaView::F => "$false"@,
            FormulaView::Eq(ts) => if ts.len() < 2 {
                "$true"@
            } else {
                "("@ + equations_text(s, names, ts, (ts.len() - 1) as nat, bound) + ")"@
            },
            FormulaView::Prd(p, ts) => if ts.len() == 0 {
                name_of(names, p)
            } else {
                name_of(names, p) + "("@ + arguments_text(
                    s,
                    names,
                    ts,
                    ts.len(),
                    bound,
                    s.terms.len(),
                ) + ")"@
            },
            FormulaView::Not(p) => "~"@ + member_text(s, names, p, bound, f),
            FormulaView::Imp(p, q) => "("@ + member_text(s, names, p, bound, f) + " => "@
                + member_text(s, names, q, bound, f) + ")"@,
            FormulaView::Or(ps) => if ps.len() == 0 {
                "$false"@
            } else {
                "("@ + members_text(s, names, ps, ps.len(), bound, f, " | "@) + ")"@
            },
            FormulaView::And(ps) => if ps.len() == 0 {
                "$true"@
            } else {
                "("@ + members_text(s, names, ps, ps.len(), bound, f, " & "@) + ")"@
            },
            FormulaView::Eqv(ps) => if ps.len() < 2 {
                "$true"@
            } else {
                "("@ + equivalences_text(s, names, ps, (ps.len() - 1) as nat, bound, f) + ")"@
            },
            FormulaView::All(p) => "(! [X"@ + decimal_digits(bound) + "] : "@ + member_text(
                s,
                names,
                p,
                bound + 1,
                f,
            ) + ")"@,
            FormulaView::Ex(p) => "(? [X"@ + decimal_digits(bound) + "] : "@ + member_text(
                s,
                names,
                p,
                bound + 1,
                f,
            ) + ")"@,
        }
    }
}

/// The name of the statement that holds the formula `f`.
pub open spec fn statement_name_text(f: Id) -> Seq<char> {
    "f"@ + hexadecimal_digits(f as nat)
}

/// The statement that holds the formula `f`, on a line of its own.
pub open spec fn statement_text(s: StoreView, names: Names, f: Id) -> Seq<char> {
    "fof("@ + statement_name_text(f) + ", plain, "@ + formula_text(s, names, f, 0) + ").\n"@
}

/// Appends the arguments `ts`, with a comma between each two.
fn write_arguments(
    out: &mut String,
    store: &Store,
    symbols: &Symbols,
    ts: &IdList,
    bound: usize,
    Ghost(parent): Ghost<nat>,
)
    requires
        store.wf(),
        symbols.wf(),
        parent <= store@.terms.len(),
        forall|i: int|
            0 <= i < ts@.len() ==> (#[trigger] ts@[i]) < parent && term_writable(
                store@,
                symbols@,
                ts@[i],
                bound as nat,
            ),
    ensures
        final(out)@ == old(out)@ + arguments_text(
            store@,
            symbols@,
            ts@,
            ts@.len(),
            bound as nat,
            parent,
        ),
    decreases parent, 1nat,
{
    let ghost start = out@;
    let n = ts.len();
    let mut i: usize = 0;
    proof {
        assert(out@ =~= start + arguments_text(store@, symbols@, ts@, 0, bound as nat, parent));
    }
    while i < n
        invariant
            n == ts@.len(),
            i <= n,
            store.wf(),
            symbols.wf(),
            parent <= store@.terms.len(),
            forall|k: int|
                0 <= k < ts@.len() ==> (#[trigger] ts@[k]) < parent && term_writable(
                    store@,
                    symbols@,
                    ts@[k],
                    bound as nat,
                ),
            out@ == start + arguments_text(store@, symbols@, ts@, i as nat, bound as nat, parent),
        decreases n - i,
    {
        if i > 0 {
            out.append(",");
        }
        write_term(out, store, symbols, ts.at(i), bound);
        proof {
            assert(out@ =~= start + arguments_text(
                store@,
                symbols@,
                ts@,
                (i + 1) as nat,
                bound as nat,
                parent,
            ));
        }
        i += 1;
    }
}

/// Appends the term `t`.
pub fn write_term(out: &mut String, store: &Store, symbols: &Symbols, t: Id, bound: usize)
    requires
        store.wf(),
        symbols.wf(),
        term_writable(store@, symbols@, t, bound as nat),
    ensures
        final(out)@ == old(out)@ + term_text(store@, symbols@, t, bound as nat),
    decreases t + 1, 0nat,
{
    let ghost start = out@;
    match store.term(t) {
        Term::Var(n) => {
            let number = decimal(bound - 1 - *n);
            out.append("X");
            out.append(number.as_str());
        },
        Term::Fn(f, ts) => {
            let name = symbol_name(symbols, *f);
            out.append(name.as_str());
            if ts.len() > 0 {
                out.append("(");
                write_arguments(out, store, symbols, ts, bound, Ghost(t as nat));
                out.append(")");
            }
        },
    }
    proof {
        assert(out@ =~= start + term_text(store@, symbols@, t, bound as nat));
    }
}

/// Appends the equations between each term of `ts` and the next.
fn write_equations(out: &mut String, store: &Store, symbols: &Symbols, ts: &IdList, bound: usize)
    requires
        store.wf(),
        symbols.wf(),
        ts@.len() >= 1,
        forall|i: int|
            0 <= i < ts@.len() ==> term_writable(store@, symbols@, #[trigger] ts@[i], bound as nat),
    ensures
        final(out)@ == old(out)@ + equations_text(
            store@,
            symbols@,
            ts@,
            (ts@.len() - 1) as nat,
            bound as nat,
        ),
{
    let ghost start = out@;
    let n = ts.len();
    let mut i: usize = 1;
    proof {
        assert(out@ =~= start + equations_text(store@, symbols@, ts@, 0, bound as nat));
    }
    while i < n
        invariant
            n == ts@.len(),
            1 <= i <= n,
            store.wf(),
            symbols.wf(),
            forall|k: int|
                0 <= k < ts@.len() ==> term_writable(
                    store@,
                    symbols@,
                    #[trigger] ts@[k],
                    bound as nat,
                ),
            out@ == start + equations_text(store@, symbols@, ts@, (i - 1) as nat, bound as nat),
        decreases n - i,
    {
        if i > 1 {
            out.append(" & ");
        }
        write_term(out, store, symbols, ts.at(i - 1), bound);
        out.append(" = ");
        write_term(out, store, symbols, ts.at(i), bound);
        proof {
            assert(out@ =~= start + equations_text(
                store@,
                symbols@,
                ts@,
                i as nat,
                bound as nat,
            ));
        }
        i += 1;
    }
}

/// Appends the members `ps` of the connective `parent`, with `separator`
/// between each two.
fn write_members(
    out: &mut String,
    store: &Store,
    symbols: &Symbols,
    ps: &IdList,
    bound: usize,
    separator: &str,
    Ghost(parent): Ghost<Id>,
)
    requires
        store.wf(),
        symbols.wf(),
        bound + parent < usize::MAX,
        forall|i: int|
            0 <= i < ps@.len() ==> (#[trigger] ps@[i]) < parent && printable(
                store@,
                symbols@,
                ps@[i],
                bound as nat,
            ),
    ensures
        final(out)@ == old(out)@ + members_text(
            store@,
            symbols@,
            ps@,
            ps@.len(),
            bound as nat,
            parent,
            separator@,
        ),
    decreases parent, 1nat,
{
    let ghost start = out@;
    let n = ps.len();
    let mut i: usize = 0;
    proof {
        assert(out@ =~= start + members_text(
            store@,
            symbols@,
            ps@,
            0,
            bound as nat,
            parent,
            separator@,
        ));
    }
    while i < n
        invariant
            n == ps@.len(),
            i <= n,
            store.wf(),
            symbols.wf(),
            bound + parent < usize::MAX,
            forall|k: int|
                0 <= k < ps@.len() ==> (#[trigger] ps@[k]) < parent && printable(
                    store@,
                    symbols@,
                    ps@[k],
                    bound as nat,
                ),
            out@ == start + members_text(
                store@,
                symbols@,
                ps@,
                i as nat,
                bound as nat,
                parent,
                separator@,
            ),
        decreases n - i,
    {
        if i > 0 {
            out.append(separator);
        }
        write_formula(out, store, symbols, ps.at(i), bound);
        proof {
            assert(ps@[i as int] < parent);
            assert(member_text(store@, symbols@, ps@[i as int], bound as nat, parent)
                == formula_text(store@, symbols@, ps@[i as int], bound as nat));
            assert(out@ =~= start + members_text(
                store@,
                symbols@,
                ps@,
                (i + 1) as nat,
                bound as nat,
                parent,
                separator@,
            ));
        }
        i += 1;
    }
}

/// Appends the equivalences between each member of `ps` and the next.
fn write_equivalences(
    out: &mut String,
    store: &Store,
    symbols: &Symbols,
    ps: &IdList,
    bound: usize,
    Ghost(parent): Ghost<Id>,
)
    requires
        store.wf(),
        symbols.wf(),
        bound + parent < usize::MAX,
        ps@.len() >= 1,
        forall|i: int|
            0 <= i < ps@.len() ==> (#[trigger] ps@[i]) < parent && printable(
                store@,
                symbols@,
                ps@[i],
                bound as nat,
            ),
    ensures
        final(out)@ == old(out)@ + equivalences_text(
            store@,
            symbols@,
            ps@,
            (ps@.len() - 1) as nat,
            bound as nat,
            parent,
        ),
    decreases parent, 1nat,
{
    let ghost start = out@;
    let n = ps.len();
    let mut i: usize = 1;
    proof {
        assert(out@ =~= start + equivalences_text(
            store@,
            symbols@,
            ps@,
            0,
            bound as nat,
            parent,
        ));
    }
    while i < n
        invariant
            n == ps@.len(),
            1 <= i <= n,
            store.wf(),
            symbols.wf(),
            bound + parent < usize::MAX,
            forall|k: int|
                0 <= k < ps@.len() ==> (#[trigger] ps@[k]) < parent && printable(
                    store@,
                    symbols@,
                    ps@[k],
                    bound as nat,
                ),
            out@ == start + equivalences_text(
                store@,
                symbols@,
                ps@,
                (i - 1) as nat,
                bound as nat,
                parent,
            ),
        decreases n - i,
    {
        if i > 1 {
            out.append(" & ");
        }
        out.append("(");
        write_formula(out, store, symbols, ps.at(i - 1), bound);
        out.append(" <=> ");
        write_formula(out, store, symbols, ps.at(i), bound);
        out.append(")");
        proof {
            assert(ps@[i - 1] < parent && ps@[i as int] < parent);
            assert(member_text(store@, symbols@, ps@[i - 1], bound as nat, parent)
                == formula_text(store@, symbols@, ps@[i - 1], bound as nat));
            assert(member_text(store@, symbols@, ps@[i as int], bound as nat, parent)
                == formula_text(store@, symbols@, ps@[i as int], bound as nat));
            assert(out@ =~= start + equivalences_text(
                store@,
                symbols@,
                ps@,
                i as nat,
                bound as nat,
                parent,
            ));
        }
        i += 1;
    }
}

/// Appends the formula `f`, as a formula below `bound` quantifiers.
pub fn write_formula(out: &mut String, store: &Store, symbols: &Symbols, f: Id, bound: usize)
    requires
        store.wf(),
        symbols.wf(),
        bound + f < usize::MAX,
        printable(store@, symbols@, f, bound as nat),
    ensures
        final(out)@ == old(out)@ + formula_text(store@, symbols@, f, bound as nat),
    decreases f + 1, 0nat,
{
    let ghost start = out@;
    let ghost want = formula_text(store@, symbols@, f, bound as nat);
    proof {
        assert(store@.formula_ok(store@.formulae[f as int], f as int));
    }
    match store.formula(f) {
        Formula::T => {
            out.append("$true");
        },
        Formula::F => {
            out.append("$false");
        },
        Formula::Eq(ts) => {
            if ts.len() < 2 {
                out.append("$true");
            } else {
                out.append("(");
                write_equations(out, store, symbols, ts.as_list(), bound);
                out.append(")");
            }
        },
        Formula::Prd(p, ts) => {
            let name = symbol_name(symbols, *p);
            out.append(name.as_str());
            if ts.len() > 0 {
                out.append("(");
                write_arguments(out, store, symbols, ts, bound, Ghost(store@.terms.len()));
                out.append(")");
            }
        },
        Formula::Not(p) => {
            out.append("~");
            write_formula(out, store, symbols, *p, bound);
        },
        Formula::Imp(p, q) => {
            out.append("(");
            write_formula(out, store, symbols, *p, bound);
            out.append(" => ");
            write_formula(out, store, symbols, *q, bound);
            out.append(")");
        },
        Formula::Or(ps) => {
            if ps.len() == 0 {
                out.append("$false");
            } else {
                out.append("(");
                write_members(out, store, symbols, ps.as_list(), bound, " | ", Ghost(f));
                out.append(")");
            }
        },
        Formula::And(ps) => {
            if ps.len() == 0 {
                out.append("$true");
            } else {
                out.append("(");
                write_members(out, store, symbols, ps.as_list(), bound, " & ", Ghost(f));
                out.append(")");
            }
        },
        Formula::Eqv(ps) => {
            if ps.len() < 2 {
                out.append("$true");
            } else {
                out.append("(");
                write_equivalences(out, store, symbols, ps.as_list(), bound, Ghost(f));
                out.append(")");
            }
        },
        Formula::All(p) => {
            let number = decimal(bound);
            out.append("(! [X");
            out.append(number.as_str());
            out.append("] : ");
            write_formula(out, store, symbols, *p, bound + 1);
            out.append(")");
        },
        Formula::Ex(p) => {
            let number = decimal(bound);
            out.append("(? [X");
            out.append(number.as_str());
            out.append("] : ");
            write_formula(out, store, symbols, *p, bound + 1);
            out.append(")");
        },
    }
    proof {
        assert(out@ =~= start + want);
    }
}

/// The name of the statement that holds the formula `f`.
pub fn statement_name(f: Id) -> (name: String)
    ensures
        name@ == statement_name_text(f),
{
    let mut name = String::from_str("f");
    let number = hexadecimal(f);
    name.append(number.as_str());
    proof {
        assert(name@ =~= statement_name_text(f));
    }
    name
}

/// Appends the statement that holds the closed formula `f`.
pub fn write_statement(out: &mut String, store: &Store, symbols: &Symbols, f: Id)
    requires
        store.wf(),
        symbols.wf(),
        f < usize::MAX,
        printable(store@, symbols@, f, 0),
    ensures
        final(out)@ == old(out)@ + statement_text(store@, symbols@, f),
{
    let ghost start = out@;
    let name = statement_name(f);
    out.append("fof(");
    out.append(name.as_str());
    out.append(", plain, ");
    write_formula(out, store, symbols, f, 0);
    out.append(").\n");
    proof {
        assert(out@ =~= start + statement_text(store@, symbols@, f));
    }
}

/// Whether each of the terms `ts` can be written below `bound` quantifiers.
fn terms_are_printable(store: &Store, symbols: &Symbols, ts: &IdList, bound: usize) -> (yes: bool)
    requires
        store.wf(),
        symbols.wf(),
        forall|k: int| 0 <= k < ts@.len() ==> ts@[k] < store@.terms.len(),
    ensures
        yes == forall|i: int|
            0 <= i < ts@.len() ==> term_writable(store@, symbols@, #[trigger] ts@[i], bound as nat),
{
    let n = ts.len();
    let mut i: usize = 0;
    while i < n
        invariant
            n == ts@.len(),
            i <= n,
            store.wf(),
            symbols.wf(),
            forall|k: int| 0 <= k < ts@.len() ==> ts@[k] < store@.terms.len(),
            forall|k: int|
                0 <= k < i ==> term_writable(store@, symbols@, #[trigger] ts@[k], bound as nat),
        decreases n - i,
    {
        if !term_is_writable(store, symbols, ts.at(i), bound) {
            return false;
        }
        i += 1;
    }
    true
}

/// Whether each of the members `ps` of the connective `parent` can be
/// printed below `bound` quantifiers.
fn members_are_printable(
    store: &Store,
    symbols: &Symbols,
    ps: &IdList,
    bound: usize,
    Ghost(parent): Ghost<Id>,
) -> (yes: bool)
    requires
        store.wf(),
        symbols.wf(),
        parent < store@.formulae.len(),
        bound + parent < usize::MAX,
        forall|k: int| 0 <= k < ps@.len() ==> ps@[k] < parent,
    ensures
        yes == forall|i: int|
            0 <= i < ps@.len() ==> (#[trigger] ps@[i]) < parent && printable(
                store@,
                symbols@,
                ps@[i],
                bound as nat,
            ),
    decreases parent, 1nat,
{
    let n = ps.len();
    let mut i: usize = 0;
    while i < n
        invariant
            n == ps@.len(),
            i <= n,
            store.wf(),
            symbols.wf(),
            parent < store@.formulae.len(),
            bound + parent < usize::MAX,
            forall|k: int| 0 <= k < ps@.len() ==> ps@[k] < parent,
            forall|k: int|
                0 <= k < i ==> printable(store@, symbols@, #[trigger] ps@[k], bound as nat),
        decreases n - i,
    {
        if !is_printable(store, symbols, ps.at(i), bound) {
            return false;
        }
        i += 1;
    }
    true
}

/// Whether the formula `f` can be printed below `bound` quantifiers.
pub fn is_printable(store: &Store, symbols: &Symbols, f: Id, bound: usize) -> (yes: bool)
    requires
        store.wf(),
        symbols.wf(),
        f < store@.formulae.len(),
        bound + f < usize::MAX,
    ensures
        yes == printable(store@, symbols@, f, bound as nat),
    decreases f + 1, 0nat,
{
    proof {
        assert(store@.formula_ok(store@.formulae[f as int], f as int));
    }
    match store.formula(f) {
        Formula::T => true,
        Formula::F => true,
        Formula::Eq(ts) => terms_are_printable(store, symbols, ts.as_list(), bound),
        Formula::Prd(p, ts) => {
            let named = match p {
                Symbol::Original(i) => *i < symbols.len(),
                Symbol::Introduced(_) => true,
            };
            named && terms_are_printable(store, symbols, ts, bound)
        },
        Formula::Not(p) => is_printable(store, symbols, *p, bound),
        Formula::Imp(p, q) => is_printable(store, symbols, *p, bound) && is_printable(
            store,
            symbols,
            *q,
            bound,
        ),
        Formula::Or(ps) => members_are_printable(store, symbols, ps.as_list(), bound, Ghost(f)),
        Formula::And(ps) => members_are_printable(store, symbols, ps.as_list(), bound, Ghost(f)),
        Formula::Eqv(ps) => members_are_printable(store, symbols, ps.as_list(), bound, Ghost(f)),
        Formula::All(p) => is_printable(store, symbols, *p, bound + 1),
        Formula::Ex(p) => is_printable(store, symbols, *p, bound + 1),
    }
}

/// Whether each of the formulae `fs` is a closed formula that can be
/// printed.
pub open spec fn all_printable(s: StoreView, names: Names, fs: Seq<Id>) -> bool {
    forall|i: int| 0 <= i < fs.len() ==> (#[trigger] fs[i]) < usize::MAX && printable(s, names, fs[i], 0)
}

/// The statements that hold the first `n` of the formulae `fs`.
pub open spec fn statements_text(s: StoreView, names: Names, fs: Seq<Id>, n: nat) -> Seq<char>
    decreases n,
{
    if n == 0 || n > fs.len() {
        Seq::empty()
    } else {
        statements_text(s, names, fs, (n - 1) as nat) + statement_text(s, names, fs[n - 1])
    }
}

/// The statements that hold the formulae `fs`, one on each line, if each of
/// them is a closed formula that can be printed.
pub fn statements(store: &Store, symbols: &Symbols, fs: &Vec<Id>) -> (text: Option<String>)
    requires
        store.wf(),
        symbols.wf(),
    ensures
        text is Some == all_printable(store@, symbols@, fs@),
        text matches Some(text) ==> text@ == statements_text(store@, symbols@, fs@, fs@.len()),
{
    let mut text = String::from_str("");
    let n = fs.len();
    let mut i: usize = 0;
    proof {
        reveal_strlit("");
        assert(text@ =~= statements_text(store@, symbols@, fs@, 0));
    }
    while i < n
        invariant
            n == fs@.len(),
            i <= n,
            store.wf(),
            symbols.wf(),
            forall|k: int|
                0 <= k < i ==> (#[trigger] fs@[k]) < usize::MAX && printable(
                    store@,
                    symbols@,
                    fs@[k],
                    0,
                ),
            text@ == statements_text(store@, symbols@, fs@, i as nat),
        decreases n - i,
    {
        let f = fs[i];
        if !(f < store.formula_count() && f < usize::MAX && is_printable(store, symbols, f, 0)) {
            proof {
                assert(!(fs@[i as int] < usize::MAX && printable(
                    store@,
                    symbols@,
                    fs@[i as int],
                    0,
                )));
            }
            return None;
        }
        let ghost before = text@;
        write_statement(&mut text, store, symbols, f);
        proof {
            assert(text@ =~= statements_text(store@, symbols@, fs@, (i + 1) as nat));
        }
        i += 1;
    }
    Some(text)
}

} // verus!
