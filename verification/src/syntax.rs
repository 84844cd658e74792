//! The syntax of a problem as it is read: terms, formulae, clauses and
//! statements, with names as they are written.

use vstd::prelude::*;

verus! {

/// The name of a symbol as it is written: a word, or a number.
#[derive(Debug)]
pub enum Name {
    Atomic(String),
    Integer(String),
}

/// What went wrong when a file was read.
#[derive(Clone, Copy, Debug, PartialEq, Eq, Structural)]
pub enum ReadError {
    /// The file could not be read.
    System,
    /// The text is made of what is no word of the language.
    Lexical,
    /// The text is in a dialect of the language that is not supported.
    UnsupportedDialect,
    /// The words make no statement.
    Syntactic,
    /// A file that the text includes could not be read.
    Include,
}

/// A term as it is written.
#[derive(Debug)]
pub enum FofTerm {
    Variable(String),
    Functor(String, Vec<FofTerm>),
}

/// A written term as a mathematical value.
pub enum FofTermView {
    Variable(Seq<char>),
    Functor(Seq<char>, Seq<FofTermView>),
}

/// The connectives of two formulae that do not associate.
#[derive(Clone, Copy, Debug, PartialEq, Eq, Structural)]
pub enum NonAssocConnective {
    LRImplies,
    RLImplies,
    Equivalent,
    NotEquivalent,
    NotOr,
    NotAnd,
}

/// The connectives of any number of formulae.
#[derive(Clone, Copy, Debug, PartialEq, Eq, Structural)]
pub enum AssocConnective {
    Or,
    And,
}

/// The quantifiers.
#[derive(Clone, Copy, Debug, PartialEq, Eq, Structural)]
pub enum FofQuantifier {
    Forall,
    Exists,
}

/// Whether two terms are said to be equal or to be different.
#[derive(Clone, Copy, Debug, PartialEq, Eq, Structural)]
pub enum InfixEquality {
    Equal,
    NotEqual,
}

/// A formula as it is written.
#[derive(Debug)]
pub enum FofFormula {
    Boolean(bool),
    Infix(InfixEquality, FofTerm, FofTerm),
    Predicate(String, Vec<FofTerm>),
    Unary(Box<FofFormula>),
    NonAssoc(NonAssocConnective, Box<FofFormula>, Box<FofFormula>),
    Assoc(AssocConnective, Vec<FofFormula>),
    Quantified(FofQuantifier, Vec<String>, Box<FofFormula>),
}

/// A written formula as a mathematical value.
pub enum FofFormulaView {
    Boolean(bool),
    Infix(InfixEquality, FofTermView, FofTermView),
    Predicate(Seq<char>, Seq<FofTermView>),
    Unary(Box<FofFormulaView>),
    NonAssoc(NonAssocConnective, Box<FofFormulaView>, Box<FofFormulaView>),
    Assoc(AssocConnective, Seq<FofFormulaView>),
    Quantified(FofQuantifier, Seq<Seq<char>>, Box<FofFormulaView>),
}

/// An atom as it is written: a constant, an equation or its denial, or a
/// predicate with its arguments.
#[derive(Debug)]
pub enum Atom {
    Boolean(bool),
    Infix(InfixEquality, FofTerm, FofTerm),
    Predicate(String, Vec<FofTerm>),
}

/// A written atom as a mathematical value.
pub enum AtomView {
    Boolean(bool),
    Infix(InfixEquality, FofTermView, FofTermView),
    Predicate(Seq<char>, Seq<FofTermView>),
}

/// A literal of a clause: an atom, or a negated atom.
#[derive(Debug)]
pub enum CnfLiteral {
    Literal(Atom),
    NegatedLiteral(Atom),
}

/// A written literal as a mathematical value.
pub enum CnfLiteralView {
    Literal(AtomView),
    NegatedLiteral(AtomView),
}

/// What a statement says its formula is.
#[derive(Clone, Copy, Debug, PartialEq, Eq, Structural)]
pub enum FormulaRole {
    Axiom,
    Hypothesis,
    Definition,
    Lemma,
    Theorem,
    Corollary,
    Conjecture,
    NegatedConjecture,
    Other,
}

/// A statement of a problem: a formula or a clause with its role, or the
/// inclusion of another file, of all of it or of a selection.
#[derive(Debug)]
pub enum Statement {
    Fof(FormulaRole, FofFormula),
    Cnf(FormulaRole, Vec<CnfLiteral>),
    Include(bool),
}

impl View for FofTerm {
    type V = FofTermView;

    open spec fn view(&self) -> FofTermView
        decreases self,
    {
        match self {
            FofTerm::Variable(x) => FofTermView::Variable(x@),
            FofTerm::Functor(f, ts) => FofTermView::Functor(f@, term_views(ts)),
        }
    }
}

/// The views of the terms `ts`.
pub open spec fn term_views(ts: &Vec<FofTerm>) -> Seq<FofTermView>
    decreases ts,
{
    Seq::new(
        ts.len() as nat,
        |i: int|
            if 0 <= i < ts.len() {
                ts[i]@
            } else {
                FofTermView::Variable(Seq::empty())
            },
    )
}

/// The views of the names `xs`.
pub open spec fn name_views(xs: &Vec<String>) -> Seq<Seq<char>> {
    Seq::new(xs.len() as nat, |i: int| xs[i]@)
}

impl View for FofFormula {
    type V = FofFormulaView;

    open spec fn view(&self) -> FofFormulaView
        decreases self,
    {
        match self {
            FofFormula::Boolean(b) => FofFormulaView::Boolean(*b),
            FofFormula::Infix(op, left, right) => FofFormulaView::Infix(*op, left@, right@),
            FofFormula::Predicate(p, ts) => FofFormulaView::Predicate(p@, term_views(ts)),
            FofFormula::Unary(f) => FofFormulaView::Unary(Box::new((**f).view())),
            FofFormula::NonAssoc(op, left, right) => FofFormulaView::NonAssoc(
                *op,
                Box::new((**left).view()),
                Box::new((**right).view()),
            ),
            FofFormula::Assoc(op, fs) => FofFormulaView::Assoc(*op, formula_views(fs)),
            FofFormula::Quantified(q, xs, f) => FofFormulaView::Quantified(
                *q,
                name_views(xs),
                Box::new((**f).view()),
            ),
        }
    }
}

/// The views of the formulae `fs`.
pub open spec fn formula_views(fs: &Vec<FofFormula>) -> Seq<FofFormulaView>
    decreases fs,
{
    Seq::new(
        fs.len() as nat,
        |i: int|
            if 0 <= i < fs.len() {
                fs[i]@
            } else {
                FofFormulaView::Boolean(true)
            },
    )
}

impl View for Atom {
    type V = AtomView;

    open spec fn view(&self) -> AtomView {
        match self {
            Atom::Boolean(b) => AtomView::Boolean(*b),
            Atom::Infix(op, left, right) => AtomView::Infix(*op, left@, right@),
            Atom::Predicate(p, ts) => AtomView::Predicate(p@, term_views(ts)),
        }
    }
}

/// The atom as a formula.
pub open spec fn atom_formula(atom: AtomView) -> FofFormulaView {
    match atom {
        AtomView::Boolean(b) => FofFormulaView::Boolean(b),
        AtomView::Infix(op, left, right) => FofFormulaView::Infix(op, left, right),
        AtomView::Predicate(p, ts) => FofFormulaView::Predicate(p, ts),
    }
}

/// The literal as a formula.
pub open spec fn literal_formula(literal: CnfLiteralView) -> FofFormulaView {
    match literal {
        CnfLiteralView::Literal(atom) => atom_formula(atom),
        CnfLiteralView::NegatedLiteral(atom) => FofFormulaView::Unary(
            Box::new(atom_formula(atom)),
        ),
    }
}

/// The atom of the literal.
pub open spec fn literal_atom(literal: CnfLiteralView) -> AtomView {
    match literal {
        CnfLiteralView::Literal(atom) => atom,
        CnfLiteralView::NegatedLiteral(atom) => atom,
    }
}

impl View for CnfLiteral {
    type V = CnfLiteralView;

    open spec fn view(&self) -> CnfLiteralView {
        match self {
            CnfLiteral::Literal(f) => CnfLiteralView::Literal(f@),
            CnfLiteral::NegatedLiteral(f) => CnfLiteralView::NegatedLiteral(f@),
        }
    }
}

/// The views of the literals `ls`.
pub open spec fn literal_views(ls: &Vec<CnfLiteral>) -> Seq<CnfLiteralView> {
    Seq::new(ls.len() as nat, |i: int| ls[i]@)
}

} // verus!
