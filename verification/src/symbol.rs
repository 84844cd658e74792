//! Function and predicate symbols.

use vstd::prelude::*;

verus! {

/// A symbol of the problem's signature.
///
/// An original symbol came with the problem: it is the number that the
/// problem's symbol table gave to its name and arity. An introduced symbol is
/// a constant made up while proving: it carries the identifier of the formula
/// whose bound variable it stands for. The two kinds never coincide.
#[derive(Clone, Copy, Debug, PartialEq, Eq, Hash, Structural)]
pub enum Symbol {
    Original(usize),
    Introduced(usize),
}

impl Symbol {
    /// Whether the symbol was made up while proving.
    pub fn is_introduced(self) -> (introduced: bool)
        ensures
            introduced == (self is Introduced),
    {
        match self {
            Symbol::Introduced(_) => true,
            Symbol::Original(_) => false,
        }
    }
}

} // verus!
