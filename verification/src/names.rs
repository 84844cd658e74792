//! The names of the symbols of a problem.
//!
//! Each pair of a name and an arity that occurs in the problem is given a
//! symbol of its own, once. The symbols that are made up while proving have
//! no entry here: their names are generated from the number they carry, and
//! no name of the problem can give one of them.

use crate::symbol::Symbol;
use crate::text::hexadecimal;
use crate::text::hexadecimal_digits;
use vstd::prelude::*;
use vstd::string::*;

verus! {

/// The table of the names and arities of the original symbols.
pub struct Symbols {
    names: Vec<String>,
    arities: Vec<usize>,
}

impl View for Symbols {
    type V = Seq<(Seq<char>, usize)>;

    closed spec fn view(&self) -> Seq<(Seq<char>, usize)> {
        Seq::new(self.names@.len(), |i: int| (self.names@[i]@, self.arities@[i]))
    }
}

/// Whether no pair of a name and an arity occurs twice.
pub open spec fn distinct(entries: Seq<(Seq<char>, usize)>) -> bool {
    forall|i: int, j: int| 0 <= i < j < entries.len() ==> entries[i] != entries[j]
}

/// Whether `new` holds all that `old` holds, at the same places.
pub open spec fn grown(old: Seq<(Seq<char>, usize)>, new: Seq<(Seq<char>, usize)>) -> bool {
    old.len() <= new.len() && forall|i: int| 0 <= i < old.len() ==> new[i] == old[i]
}

impl Symbols {
    /// The invariant of the table: no pair of a name and an arity has two
    /// symbols.
    pub closed spec fn wf(&self) -> bool {
        self.names@.len() == self.arities@.len() && distinct(self@)
    }

    /// In a table that meets its invariant no pair of a name and an arity
    /// occurs twice: a name with an arity has one symbol.
    pub proof fn lemma_distinct(&self)
        requires
            self.wf(),
        ensures
            distinct(self@),
    {
    }

    /// An empty table.
    pub fn new() -> (symbols: Self)
        ensures
            symbols.wf(),
            symbols@.len() == 0,
    {
        Symbols { names: Vec::new(), arities: Vec::new() }
    }

    /// The number of original symbols.
    pub fn len(&self) -> (n: usize)
        requires
            self.wf(),
        ensures
            n == self@.len(),
    {
        self.names.len()
    }
}

/// The name of the introduced symbol that carries `n`.
pub open spec fn introduced_name(n: usize) -> Seq<char> {
    "k_"@ + hexadecimal_digits(n as nat)
}

/// The symbol of the name `name` with the arity `arity`: the one it has
/// already, or else a new one.
pub fn symbol_for(symbols: &mut Symbols, name: &str, arity: usize) -> (symbol: Symbol)
    requires
        old(symbols).wf(),
    ensures
        final(symbols).wf(),
        grown(old(symbols)@, final(symbols)@),
        match symbol {
            Symbol::Original(i) => i < final(symbols)@.len() && final(symbols)@[i as int] == (
                name@,
                arity,
            ),
            Symbol::Introduced(_) => false,
        },
        old(symbols)@.contains((name@, arity)) ==> final(symbols)@ == old(symbols)@,
        !old(symbols)@.contains((name@, arity)) ==> final(symbols)@ == old(symbols)@.push(
            (name@, arity),
        ),
{
    let key = String::from_str(name);
    let n = symbols.names.len();
    let mut i: usize = 0;
    while i < n
        invariant
            symbols.wf(),
            *symbols == *old(symbols),
            n == symbols.names@.len(),
            i <= n,
            key@ == name@,
            forall|j: int| 0 <= j < i ==> symbols@[j] != (name@, arity),
        decreases n - i,
    {
        if symbols.arities[i] == arity && symbols.names[i] == key {
            proof {
                assert(symbols@[i as int] == (name@, arity));
                assert(symbols@.contains((name@, arity)));
            }
            return Symbol::Original(i);
        }
        i += 1;
    }
    let ghost before = symbols@;
    symbols.names.push(key);
    symbols.arities.push(arity);
    proof {
        assert(symbols@ =~= before.push((name@, arity)));
        assert(!before.contains((name@, arity))) by {
            if before.contains((name@, arity)) {
                let j = choose|j: int| 0 <= j < before.len() && before[j] == (name@, arity);
                assert(before[j] != (name@, arity));
            }
        }
        assert forall|a: int, b: int| 0 <= a < b < symbols@.len() implies symbols@[a]
            != symbols@[b] by {
            if b < before.len() {
                assert(before[a] != before[b]);
            }
        }
    }
    Symbol::Original(n)
}

/// The name of `symbol`: the name it was given in the problem, or the name
/// generated for a symbol that was made up while proving.
pub fn symbol_name(symbols: &Symbols, symbol: Symbol) -> (name: String)
    requires
        symbols.wf(),
        symbol matches Symbol::Original(i) ==> i < symbols@.len(),
    ensures
        name@ == match symbol {
            Symbol::Original(i) => symbols@[i as int].0,
            Symbol::Introduced(n) => introduced_name(n),
        },
{
    match symbol {
        Symbol::Original(i) => symbols.names[i].clone(),
        Symbol::Introduced(n) => {
            let mut name = String::from_str("k_");
            let digits = hexadecimal(n);
            name.append(digits.as_str());
            name
        },
    }
}

/// The arity of `symbol`: the one it was given in the problem, or none for
/// a symbol that was made up while proving, which is a constant.
pub fn symbol_arity(symbols: &Symbols, symbol: Symbol) -> (arity: usize)
    requires
        symbols.wf(),
        symbol matches Symbol::Original(i) ==> i < symbols@.len(),
    ensures
        arity == match symbol {
            Symbol::Original(i) => symbols@[i as int].1,
            Symbol::Introduced(_) => 0,
        },
{
    match symbol {
        Symbol::Original(i) => symbols.arities[i],
        Symbol::Introduced(_) => 0,
    }
}

} // verus!
