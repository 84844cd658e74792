//! Formulae as graphs of tagged nodes, the form in which the heuristic
//! reads them.
//!
//! Equal parts of a formula share one node. A node stands before every node
//! that it is a child of, and the node of the whole formula is the last.

use crate::collections::{Id, IdList};
use crate::formula::{Formula, FormulaView};
use crate::store::{Store, StoreView};
use crate::symbol::Symbol;
use crate::term::{Term, TermView};
use vstd::prelude::*;

verus! {

/// What a node of the graph stands for.
#[derive(Clone, Copy, Debug, PartialEq, Eq, Structural)]
pub enum Flavour {
    True,
    False,
    Variable,
    Constant,
    Proposition,
    FunctionSymbol,
    PredicateSymbol,
    Application,
    Arguments,
    Equality,
    Negation,
    Disjunction,
    Conjunction,
    Equivalence,
    Universal,
    Existential,
    Top,
}

impl Flavour {
    /// The tag under which the heuristic knows this flavour.
    pub open spec fn tag_of(self) -> u8 {
        match self {
            Flavour::True => 0,
            Flavour::False => 1,
            Flavour::Variable => 2,
            Flavour::Constant => 3,
            Flavour::Proposition => 4,
            Flavour::FunctionSymbol => 5,
            Flavour::PredicateSymbol => 6,
            Flavour::Application => 7,
            Flavour::Arguments => 8,
            Flavour::Equality => 9,
            Flavour::Negation => 10,
            Flavour::Disjunction => 11,
            Flavour::Conjunction => 12,
            Flavour::Equivalence => 13,
            Flavour::Universal => 14,
            Flavour::Existential => 15,
            Flavour::Top => 16,
        }
    }

    /// The tag under which the heuristic knows this flavour.
    pub fn tag(self) -> (tag: u8)
        ensures
            tag == self.tag_of(),
    {
        match self {
            Flavour::True => 0,
            Flavour::False => 1,
            Flavour::Variable => 2,
            Flavour::Constant => 3,
            Flavour::Proposition => 4,
            Flavour::FunctionSymbol => 5,
            Flavour::PredicateSymbol => 6,
            Flavour::Application => 7,
            Flavour::Arguments => 8,
            Flavour::Equality => 9,
            Flavour::Negation => 10,
            Flavour::Disjunction => 11,
            Flavour::Conjunction => 12,
            Flavour::Equivalence => 13,
            Flavour::Universal => 14,
            Flavour::Existential => 15,
            Flavour::Top => 16,
        }
    }
}

/// What tells a node from others of its flavour and with its children: the
/// symbol that a leaf stands for, or, for a variable, the body of the
/// quantifier that binds it.
#[derive(Clone, Copy, Debug, PartialEq, Eq, Structural)]
pub enum Label {
    Nothing,
    Named(Symbol),
    Bound(Id),
}

/// A node: its flavour, its label, and the positions of its children.
#[derive(Debug)]
pub struct Node {
    pub flavour: Flavour,
    pub label: Label,
    pub children: Vec<usize>,
}

/// A node as a mathematical value.
pub struct NodeView {
    pub flavour: Flavour,
    pub label: Label,
    pub children: Seq<usize>,
}

impl View for Node {
    type V = NodeView;

    open spec fn view(&self) -> NodeView {
        NodeView { flavour: self.flavour, label: self.label, children: self.children@ }
    }
}

/// A node without children.
pub open spec fn leaf(flavour: Flavour, label: Label) -> NodeView {
    NodeView { flavour, label, children: Seq::empty() }
}

/// A node without a label.
pub open spec fn inner(flavour: Flavour, children: Seq<usize>) -> NodeView {
    NodeView { flavour, label: Label::Nothing, children }
}

/// The nodes of a graph, each at its position.
pub type Nodes = Seq<NodeView>;

/// Whether every child stands before its parent and no two nodes are equal.
pub open spec fn nodes_ok(g: Nodes) -> bool {
    &&& forall|i: int, k: int|
        0 <= i < g.len() && 0 <= k < g[i].children.len() ==> (#[trigger] g[i].children[k]) < i
    &&& forall|i: int, j: int| 0 <= i < j < g.len() ==> g[i] != g[j]
}

/// Whether `h` holds all the nodes of `g`, at the same positions.
pub open spec fn keeps(g: Nodes, h: Nodes) -> bool {
    g.len() <= h.len() && forall|i: int| 0 <= i < g.len() ==> h[i] == g[i]
}

/// Whether no node of `g` is the node above a whole formula.
pub open spec fn plain(g: Nodes) -> bool {
    forall|i: int| 0 <= i < g.len() ==> (#[trigger] g[i]).flavour != Flavour::Top
}

/// A graph under construction.
pub struct Graph {
    nodes: Vec<Node>,
}

impl View for Graph {
    type V = Nodes;

    closed spec fn view(&self) -> Nodes {
        Seq::new(self.nodes@.len(), |i: int| self.nodes@[i]@)
    }
}

impl Graph {
    /// The invariant of a graph.
    pub open spec fn wf(&self) -> bool {
        nodes_ok(self@)
    }

    /// The graph without nodes.
    pub fn new() -> (graph: Graph)
        ensures
            graph.wf(),
            graph@.len() == 0,
    {
        Graph { nodes: Vec::new() }
    }

    /// The number of nodes.
    pub fn len(&self) -> (n: usize)
        ensures
            n == self@.len(),
    {
        self.nodes.len()
    }

    /// Whether the node at `i` has this flavour, this label and these
    /// children.
    fn is(&self, i: usize, flavour: Flavour, label: Label, children: &Vec<usize>) -> (yes: bool)
        requires
            i < self@.len(),
        ensures
            yes == (self@[i as int] == NodeView { flavour, label, children: children@ }),
    {
        let node = &self.nodes[i];
        let n = children.len();
        proof {
            assert(self@[i as int] == node@);
        }
        if !(node.flavour == flavour && node.label == label && node.children.len() == n) {
            return false;
        }
        let mut k: usize = 0;
        while k < n
            invariant
                n == children@.len(),
                n == node.children@.len(),
                k <= n,
                i < self@.len(),
                self@[i as int] == node@,
                forall|j: int| 0 <= j < k ==> node.children@[j] == children@[j],
            decreases n - k,
        {
            if node.children[k] != children[k] {
                return false;
            }
            k += 1;
        }
        proof {
            assert(node.children@ =~= children@);
        }
        true
    }

    /// The position of the node with this flavour, this label and these
    /// children, which is added if the graph does not hold it yet.
    pub fn add(&mut self, flavour: Flavour, label: Label, children: Vec<usize>) -> (at: usize)
        requires
            old(self).wf(),
            forall|k: int| 0 <= k < children@.len() ==> children@[k] < old(self)@.len(),
        ensures
            final(self).wf(),
            keeps(old(self)@, final(self)@),
            at < final(self)@.len(),
            final(self)@[at as int] == (NodeView { flavour, label, children: children@ }),
            final(self)@ == old(self)@ || final(self)@ == old(self)@.push(
                NodeView { flavour, label, children: children@ },
            ),
    {
        let n = self.nodes.len();
        let mut i: usize = 0;
        while i < n
            invariant
                n == self@.len(),
                n == self.nodes@.len(),
                i <= n,
                self.wf(),
                self@ == old(self)@,
                forall|j: int|
                    0 <= j < i ==> self@[j] != (NodeView { flavour, label, children: children@ }),
            decreases n - i,
        {
            if self.is(i, flavour, label, &children) {
                return i;
            }
            i += 1;
        }
        let ghost before = self@;
        let ghost added = NodeView { flavour, label, children: children@ };
        self.nodes.push(Node { flavour, label, children });
        proof {
            assert(self@ =~= before.push(added));
        }
        n
    }
}

/// Whether every variable of the term `t` is bound by one of `depth`
/// quantifiers.
pub open spec fn term_closed(s: StoreView, t: Id, depth: nat) -> bool
    decreases t,
{
    t < s.terms.len() && match s.terms[t as int] {
        TermView::Var(n) => n < depth,
        TermView::Fn(_, ts) => forall|k: int|
            0 <= k < ts.len() ==> (#[trigger] ts[k]) < t && term_closed(s, ts[k], depth),
    }
}

/// Whether every variable of the formula `f` is bound by a quantifier of
/// `f` or by one of `depth` quantifiers around it.
pub open spec fn closed(s: StoreView, f: Id, depth: nat) -> bool
    decreases f,
{
    f < s.formulae.len() && match s.formulae[f as int] {
        FormulaView::T => true,
        FormulaView::F => true,
        FormulaView::Eq(ts) => forall|k: int|
            0 <= k < ts.len() ==> term_closed(s, #[trigger] ts[k], depth),
        FormulaView::Prd(_, ts) => forall|k: int|
            0 <= k < ts.len() ==> term_closed(s, #[trigger] ts[k], depth),
        FormulaView::Not(p) => p < f && closed(s, p, depth),
        FormulaView::Imp(p, q) => p < f && q < f && closed(s, p, depth) && closed(s, q, depth),
        FormulaView::Or(ps) => forall|k: int|
            0 <= k < ps.len() ==> (#[trigger] ps[k]) < f && closed(s, ps[k], depth),
        FormulaView::And(ps) => forall|k: int|
            0 <= k < ps.len() ==> (#[trigger] ps[k]) < f && closed(s, ps[k], depth),
        FormulaView::Eqv(ps) => forall|k: int|
            0 <= k < ps.len() ==> (#[trigger] ps[k]) < f && closed(s, ps[k], depth),
        FormulaView::All(p) => p < f && closed(s, p, depth + 1),
        FormulaView::Ex(p) => p < f && closed(s, p, depth + 1),
    }
}

/// Whether the node at `at` is the application of the symbol node
/// `head` to the node of arguments at `tail`.
pub open spec fn applies(g: Nodes, at: usize, head: NodeView, tail: usize) -> bool {
    &&& at < g.len()
    &&& g[at as int].flavour == Flavour::Application
    &&& g[at as int].label == Label::Nothing
    &&& g[at as int].children.len() == 2
    &&& g[at as int].children[0] < g.len()
    &&& g[g[at as int].children[0] as int] == head
    &&& g[at as int].children[1] == tail
}

/// Whether the node at `at` stands for the term `t`, whose variables are
/// bound by the quantifiers with the bodies `bound`, innermost last.
///
/// A variable is a leaf labelled with the body of its quantifier, a
/// constant a leaf labelled with its symbol, and another term the
/// application of its symbol to its arguments.
pub open spec fn term_denoted(s: StoreView, g: Nodes, t: Id, bound: Seq<Id>, at: usize) -> bool
    decreases t, 2nat,
{
    t < s.terms.len() && at < g.len() && match s.terms[t as int] {
        TermView::Var(n) => n < bound.len() && g[at as int] == leaf(
            Flavour::Variable,
            Label::Bound(bound[bound.len() - 1 - n]),
        ),
        TermView::Fn(f, ts) => if ts.len() == 0 {
            g[at as int] == leaf(Flavour::Constant, Label::Named(f))
        } else {
            g[at as int].children.len() == 2 && applies(
                g,
                at,
                leaf(Flavour::FunctionSymbol, Label::Named(f)),
                g[at as int].children[1],
            ) && arguments_denoted(s, g, ts, t as nat, bound, g[at as int].children[1])
        },
    }
}

/// Whether the node at `at` holds the arguments `ts`, all below `parent`:
/// one child for each, in their order.
pub open spec fn arguments_denoted(
    s: StoreView,
    g: Nodes,
    ts: Seq<Id>,
    parent: nat,
    bound: Seq<Id>,
    at: usize,
) -> bool
    decreases parent, 1nat,
{
    &&& at < g.len()
    &&& g[at as int].flavour == Flavour::Arguments
    &&& g[at as int].label == Label::Nothing
    &&& terms_denoted(s, g, ts, parent, bound, g[at as int].children)
}

/// Whether the nodes at `at` stand for the terms `ts`, all below `parent`,
/// one for each, in their order.
pub open spec fn terms_denoted(
    s: StoreView,
    g: Nodes,
    ts: Seq<Id>,
    parent: nat,
    bound: Seq<Id>,
    at: Seq<usize>,
) -> bool
    decreases parent, 0nat,
{
    &&& at.len() == ts.len()
    &&& forall|k: int|
        0 <= k < ts.len() ==> (#[trigger] ts[k]) < parent && term_denoted(
            s,
            g,
            ts[k],
            bound,
            at[k],
        )
}

/// A term stands for what it stood for when nodes are added.
pub proof fn lemma_term_denoted_kept(
    s: StoreView,
    g: Nodes,
    h: Nodes,
    t: Id,
    bound: Seq<Id>,
    at: usize,
)
    requires
        keeps(g, h),
        nodes_ok(g),
        term_denoted(s, g, t, bound, at),
    ensures
        term_denoted(s, h, t, bound, at),
    decreases t,
{
    match s.terms[t as int] {
        TermView::Var(_) => {},
        TermView::Fn(f, ts) => {
            if ts.len() > 0 {
                let tail = g[at as int].children[1];
                let head = g[at as int].children[0];
                assert(h[head as int] == g[head as int]);
                assert(h[tail as int] == g[tail as int]);
                assert forall|k: int| 0 <= k < ts.len() implies (#[trigger] ts[k]) < t
                    && term_denoted(s, h, ts[k], bound, h[tail as int].children[k]) by {
                    lemma_term_denoted_kept(s, g, h, ts[k], bound, g[tail as int].children[k]);
                }
            }
        },
    }
}

/// Terms stand for what they stood for when nodes are added.
pub proof fn lemma_terms_denoted_kept(
    s: StoreView,
    g: Nodes,
    h: Nodes,
    ts: Seq<Id>,
    parent: nat,
    bound: Seq<Id>,
    at: Seq<usize>,
)
    requires
        keeps(g, h),
        nodes_ok(g),
        terms_denoted(s, g, ts, parent, bound, at),
    ensures
        terms_denoted(s, h, ts, parent, bound, at),
{
    assert forall|k: int| 0 <= k < ts.len() implies (#[trigger] ts[k]) < parent && term_denoted(
        s,
        h,
        ts[k],
        bound,
        at[k],
    ) by {
        lemma_term_denoted_kept(s, g, h, ts[k], bound, at[k]);
    }
}

/// The list of one position.
fn single(x: usize) -> (list: Vec<usize>)
    ensures
        list@ == seq![x],
{
    let mut list: Vec<usize> = Vec::new();
    list.push(x);
    proof {
        assert(list@ =~= seq![x]);
    }
    list
}

/// The list of two positions.
fn couple(x: usize, y: usize) -> (list: Vec<usize>)
    ensures
        list@ == seq![x, y],
{
    let mut list: Vec<usize> = Vec::new();
    list.push(x);
    list.push(y);
    proof {
        assert(list@ =~= seq![x, y]);
    }
    list
}

/// The nodes of the terms `ts`, all below `parent`, if their variables are
/// bound.
fn from_terms(
    graph: &mut Graph,
    store: &Store,
    ts: &IdList,
    bound: &Vec<Id>,
    Ghost(parent): Ghost<nat>,
) -> (at: Option<Vec<usize>>)
    requires
        old(graph).wf(),
        store.wf(),
        parent <= store@.terms.len(),
        forall|k: int| 0 <= k < ts@.len() ==> ts@[k] < parent,
    ensures
        final(graph).wf(),
        keeps(old(graph)@, final(graph)@),
        at is Some <==> forall|k: int|
            0 <= k < ts@.len() ==> term_closed(store@, #[trigger] ts@[k], bound@.len()),
        at matches Some(at) ==> terms_denoted(store@, final(graph)@, ts@, parent, bound@, at@),
        plain(old(graph)@) ==> plain(final(graph)@),
    decreases parent, 0nat,
{
    let n = ts.len();
    let mut at: Vec<usize> = Vec::new();
    let mut i: usize = 0;
    while i < n
        invariant
            n == ts@.len(),
            i <= n,
            graph.wf(),
            store.wf(),
            keeps(old(graph)@, graph@),
            plain(old(graph)@) ==> plain(graph@),
            parent <= store@.terms.len(),
            forall|k: int| 0 <= k < ts@.len() ==> ts@[k] < parent,
            forall|k: int|
                0 <= k < i ==> term_closed(store@, #[trigger] ts@[k], bound@.len()),
            terms_denoted(store@, graph@, ts@.take(i as int), parent, bound@, at@),
        decreases n - i,
    {
        let ghost before = graph@;
        let ghost listed = at@;
        match from_term(graph, store, ts.at(i), bound) {
            Some(x) => {
                at.push(x);
                proof {
                    lemma_terms_denoted_kept(
                        store@,
                        before,
                        graph@,
                        ts@.take(i as int),
                        parent,
                        bound@,
                        listed,
                    );
                    assert forall|k: int| 0 <= k < i + 1 implies (#[trigger] ts@.take(
                        i + 1,
                    )[k]) < parent && term_denoted(
                        store@,
                        graph@,
                        ts@.take(i + 1)[k],
                        bound@,
                        at@[k],
                    ) by {
                        if k < i {
                            assert(ts@.take(i as int)[k] == ts@[k]);
                            assert(at@[k] == listed[k]);
                        }
                    }
                }
            },
            None => {
                proof {
                    assert(!term_closed(store@, ts@[i as int], bound@.len()));
                }
                return None;
            },
        }
        i += 1;
    }
    proof {
        assert(ts@.take(n as int) =~= ts@);
    }
    Some(at)
}

/// The node of the term `t`, if its variables are bound by the quantifiers
/// with the bodies `bound`, innermost last.
pub fn from_term(graph: &mut Graph, store: &Store, t: Id, bound: &Vec<Id>) -> (at: Option<usize>)
    requires
        old(graph).wf(),
        store.wf(),
        t < store@.terms.len(),
    ensures
        final(graph).wf(),
        keeps(old(graph)@, final(graph)@),
        at is Some <==> term_closed(store@, t, bound@.len()),
        at matches Some(at) ==> term_denoted(store@, final(graph)@, t, bound@, at),
        plain(old(graph)@) ==> plain(final(graph)@),
    decreases t, 1nat,
{
    proof {
        assert(store@.term_ok(store@.terms[t as int], t as int));
    }
    match store.term(t) {
        Term::Var(n) => {
            if *n < bound.len() {
                let body = bound[bound.len() - 1 - *n];
                Some(graph.add(Flavour::Variable, Label::Bound(body), Vec::new()))
            } else {
                None
            }
        },
        Term::Fn(f, ts) => {
            proof {
                assert(store@.terms[t as int] == TermView::Fn(*f, ts@));
            }
            if ts.len() == 0 {
                Some(graph.add(Flavour::Constant, Label::Named(*f), Vec::new()))
            } else {
                let ghost first = graph@;
                let head = graph.add(Flavour::FunctionSymbol, Label::Named(*f), Vec::new());
                match from_terms(graph, store, ts, bound, Ghost(t as nat)) {
                    Some(arguments) => {
                        let ghost second = graph@;
                        let ghost listed = arguments@;
                        proof {
                            assert forall|k: int| 0 <= k < listed.len() implies listed[k]
                                < second.len() by {
                                assert(term_denoted(store@, second, ts@[k], bound@, listed[k]));
                            }
                        }
                        let tail = graph.add(Flavour::Arguments, Label::Nothing, arguments);
                        let ghost third = graph@;
                        let at = graph.add(Flavour::Application, Label::Nothing, couple(head, tail));
                        proof {
                            lemma_terms_denoted_kept(
                                store@,
                                second,
                                graph@,
                                ts@,
                                t as nat,
                                bound@,
                                listed,
                            );
                            assert(graph@[head as int] == third[head as int]);
                            assert(graph@[tail as int] == third[tail as int]);
                        }
                        Some(at)
                    },
                    None => None,
                }
            }
        },
    }
}

/// Whether the node at `at` is the negation of the node that stands for
/// `p`.
pub open spec fn negation_denoted(
    s: StoreView,
    g: Nodes,
    p: Id,
    parent: Id,
    bound: Seq<Id>,
    at: usize,
) -> bool
    decreases parent, 0nat,
{
    &&& at < g.len()
    &&& g[at as int].flavour == Flavour::Negation
    &&& g[at as int].label == Label::Nothing
    &&& g[at as int].children.len() == 1
    &&& p < parent
    &&& denoted(s, g, p, bound, g[at as int].children[0])
}

/// Whether the node at `at` binds a variable in the body `p`: its first
/// child is the variable, labelled with the body, and its second child
/// stands for the body.
pub open spec fn binder_denoted(
    s: StoreView,
    g: Nodes,
    p: Id,
    parent: Id,
    bound: Seq<Id>,
    at: usize,
) -> bool
    decreases parent, 0nat,
{
    &&& at < g.len()
    &&& g[at as int].label == Label::Nothing
    &&& g[at as int].children.len() == 2
    &&& g[at as int].children[0] < g.len()
    &&& g[g[at as int].children[0] as int] == leaf(Flavour::Variable, Label::Bound(p))
    &&& p < parent
    &&& denoted(s, g, p, bound.push(p), g[at as int].children[1])
}

/// Whether the nodes at `at` stand for the members `ps` of the connective
/// `parent`, one for each, in their order.
pub open spec fn members_denoted(
    s: StoreView,
    g: Nodes,
    ps: Seq<Id>,
    parent: Id,
    bound: Seq<Id>,
    at: Seq<usize>,
) -> bool
    decreases parent, 0nat,
{
    &&& at.len() == ps.len()
    &&& forall|k: int|
        0 <= k < ps.len() ==> (#[trigger] ps[k]) < parent && denoted(s, g, ps[k], bound, at[k])
}

/// Whether the node at `at` stands for the formula `f`, whose free
/// variables are bound by the quantifiers with the bodies `bound`, innermost
/// last.
///
/// An implication is the disjunction of the negated premise and the
/// conclusion. An atom without arguments is a leaf labelled with its
/// symbol, another atom the application of its symbol to its arguments.
pub open spec fn denoted(s: StoreView, g: Nodes, f: Id, bound: Seq<Id>, at: usize) -> bool
    decreases f, 1nat,
{
    f < s.formulae.len() && at < g.len() && match s.formulae[f as int] {
        FormulaView::T => g[at as int] == leaf(Flavour::True, Label::Nothing),
        FormulaView::F => g[at as int] == leaf(Flavour::False, Label::Nothing),
        FormulaView::Eq(ts) => g[at as int].flavour == Flavour::Equality && g[at as int].label
            == Label::Nothing && terms_denoted(
            s,
            g,
            ts,
            s.terms.len(),
            bound,
            g[at as int].children,
        ),
        FormulaView::Prd(p, ts) => if ts.len() == 0 {
            g[at as int] == leaf(Flavour::Proposition, Label::Named(p))
        } else {
            g[at as int].children.len() == 2 && applies(
                g,
                at,
                leaf(Flavour::PredicateSymbol, Label::Named(p)),
                g[at as int].children[1],
            ) && arguments_denoted(s, g, ts, s.terms.len(), bound, g[at as int].children[1])
        },
        FormulaView::Not(p) => negation_denoted(s, g, p, f, bound, at),
        FormulaView::Imp(p, q) => g[at as int].flavour == Flavour::Disjunction
            && g[at as int].label == Label::Nothing && g[at as int].children.len() == 2
            && negation_denoted(s, g, p, f, bound, g[at as int].children[0]) && q < f && denoted(
            s,
            g,
            q,
            bound,
            g[at as int].children[1],
        ),
        FormulaView::Or(ps) => g[at as int].flavour == Flavour::Disjunction && g[at as int].label
            == Label::Nothing && members_denoted(s, g, ps, f, bound, g[at as int].children),
        FormulaView::And(ps) => g[at as int].flavour == Flavour::Conjunction
            && g[at as int].label == Label::Nothing && members_denoted(
            s,
            g,
            ps,
            f,
            bound,
            g[at as int].children,
        ),
        FormulaView::Eqv(ps) => g[at as int].flavour == Flavour::Equivalence
            && g[at as int].label == Label::Nothing && members_denoted(
            s,
            g,
            ps,
            f,
            bound,
            g[at as int].children,
        ),
        FormulaView::All(p) => g[at as int].flavour == Flavour::Universal && binder_denoted(
            s,
            g,
            p,
            f,
            bound,
            at,
        ),
        FormulaView::Ex(p) => g[at as int].flavour == Flavour::Existential && binder_denoted(
            s,
            g,
            p,
            f,
            bound,
            at,
        ),
    }
}

/// A formula stands for what it stood for when nodes are added.
pub proof fn lemma_denoted_kept(s: StoreView, g: Nodes, h: Nodes, f: Id, bound: Seq<Id>, at: usize)
    requires
        keeps(g, h),
        nodes_ok(g),
        denoted(s, g, f, bound, at),
    ensures
        denoted(s, h, f, bound, at),
    decreases f, 1nat,
{
    assert(h[at as int] == g[at as int]);
    let children = g[at as int].children;
    match s.formulae[f as int] {
        FormulaView::T => {},
        FormulaView::F => {},
        FormulaView::Eq(ts) => {
            lemma_terms_denoted_kept(s, g, h, ts, s.terms.len(), bound, children);
        },
        FormulaView::Prd(p, ts) => {
            if ts.len() > 0 {
                let head = children[0];
                let tail = children[1];
                assert(h[head as int] == g[head as int]);
                assert(h[tail as int] == g[tail as int]);
                lemma_terms_denoted_kept(
                    s,
                    g,
                    h,
                    ts,
                    s.terms.len(),
                    bound,
                    g[tail as int].children,
                );
                assert(arguments_denoted(s, h, ts, s.terms.len(), bound, tail));
                assert(applies(h, at, leaf(Flavour::PredicateSymbol, Label::Named(p)), tail));
            }
        },
        FormulaView::Not(p) => {
            assert(negation_denoted(s, g, p, f, bound, at));
            lemma_denoted_kept(s, g, h, p, bound, children[0]);
            assert(negation_denoted(s, h, p, f, bound, at));
        },
        FormulaView::Imp(p, q) => {
            let first = children[0];
            assert(negation_denoted(s, g, p, f, bound, first));
            assert(h[first as int] == g[first as int]);
            lemma_denoted_kept(s, g, h, p, bound, g[first as int].children[0]);
            lemma_denoted_kept(s, g, h, q, bound, children[1]);
            assert(negation_denoted(s, h, p, f, bound, first));
        },
        FormulaView::Or(ps) => {
            lemma_members_denoted_kept(s, g, h, ps, f, bound, children);
        },
        FormulaView::And(ps) => {
            lemma_members_denoted_kept(s, g, h, ps, f, bound, children);
        },
        FormulaView::Eqv(ps) => {
            lemma_members_denoted_kept(s, g, h, ps, f, bound, children);
        },
        FormulaView::All(p) => {
            assert(binder_denoted(s, g, p, f, bound, at));
            assert(h[children[0] as int] == g[children[0] as int]);
            lemma_denoted_kept(s, g, h, p, bound.push(p), children[1]);
            assert(binder_denoted(s, h, p, f, bound, at));
        },
        FormulaView::Ex(p) => {
            assert(binder_denoted(s, g, p, f, bound, at));
            assert(h[children[0] as int] == g[children[0] as int]);
            lemma_denoted_kept(s, g, h, p, bound.push(p), children[1]);
            assert(binder_denoted(s, h, p, f, bound, at));
        },
    }
}

/// Members stand for what they stood for when nodes are added.
pub proof fn lemma_members_denoted_kept(
    s: StoreView,
    g: Nodes,
    h: Nodes,
    ps: Seq<Id>,
    parent: Id,
    bound: Seq<Id>,
    at: Seq<usize>,
)
    requires
        keeps(g, h),
        nodes_ok(g),
        members_denoted(s, g, ps, parent, bound, at),
    ensures
        members_denoted(s, h, ps, parent, bound, at),
    decreases parent, 0nat,
{
    assert forall|k: int| 0 <= k < ps.len() implies (#[trigger] ps[k]) < parent && denoted(
        s,
        h,
        ps[k],
        bound,
        at[k],
    ) by {
        lemma_denoted_kept(s, g, h, ps[k], bound, at[k]);
    }
}

/// The nodes of the members `ps` of the connective `parent`, if their
/// variables are bound.
fn from_members(
    graph: &mut Graph,
    store: &Store,
    ps: &IdList,
    bound: &mut Vec<Id>,
    Ghost(parent): Ghost<Id>,
) -> (at: Option<Vec<usize>>)
    requires
        old(graph).wf(),
        store.wf(),
        parent < store@.formulae.len(),
        forall|k: int| 0 <= k < ps@.len() ==> ps@[k] < parent,
    ensures
        final(graph).wf(),
        keeps(old(graph)@, final(graph)@),
        final(bound)@ == old(bound)@,
        at is Some <==> forall|k: int|
            0 <= k < ps@.len() ==> (#[trigger] ps@[k]) < parent && closed(
                store@,
                ps@[k],
                old(bound)@.len(),
            ),
        at matches Some(at) ==> members_denoted(
            store@,
            final(graph)@,
            ps@,
            parent,
            old(bound)@,
            at@,
        ),
        plain(old(graph)@) ==> plain(final(graph)@),
    decreases parent, 0nat, 0nat,
{
    let n = ps.len();
    let mut at: Vec<usize> = Vec::new();
    let mut i: usize = 0;
    while i < n
        invariant
            n == ps@.len(),
            i <= n,
            graph.wf(),
            store.wf(),
            keeps(old(graph)@, graph@),
            plain(old(graph)@) ==> plain(graph@),
            bound@ == old(bound)@,
            parent < store@.formulae.len(),
            forall|k: int| 0 <= k < ps@.len() ==> ps@[k] < parent,
            forall|k: int| 0 <= k < i ==> closed(store@, #[trigger] ps@[k], bound@.len()),
            members_denoted(store@, graph@, ps@.take(i as int), parent, bound@, at@),
        decreases n - i,
    {
        let ghost before = graph@;
        let ghost listed = at@;
        match from_formula(graph, store, ps.at(i), bound) {
            Some(x) => {
                at.push(x);
                proof {
                    lemma_members_denoted_kept(
                        store@,
                        before,
                        graph@,
                        ps@.take(i as int),
                        parent,
                        bound@,
                        listed,
                    );
                    assert forall|k: int| 0 <= k < i + 1 implies (#[trigger] ps@.take(
                        i + 1,
                    )[k]) < parent && denoted(
                        store@,
                        graph@,
                        ps@.take(i + 1)[k],
                        bound@,
                        at@[k],
                    ) by {
                        if k < i {
                            assert(ps@.take(i as int)[k] == ps@[k]);
                            assert(at@[k] == listed[k]);
                        }
                    }
                }
            },
            None => {
                proof {
                    assert(!closed(store@, ps@[i as int], bound@.len()));
                }
                return None;
            },
        }
        i += 1;
    }
    proof {
        assert(ps@.take(n as int) =~= ps@);
    }
    Some(at)
}

/// The node with the flavour `flavour` above the members `ps` of the
/// connective `f`.
fn from_connective(
    graph: &mut Graph,
    store: &Store,
    flavour: Flavour,
    ps: &IdList,
    bound: &mut Vec<Id>,
    Ghost(f): Ghost<Id>,
) -> (at: Option<usize>)
    requires
        old(graph).wf(),
        store.wf(),
        f < store@.formulae.len(),
        flavour != Flavour::Top,
        forall|k: int| 0 <= k < ps@.len() ==> ps@[k] < f,
    ensures
        final(graph).wf(),
        keeps(old(graph)@, final(graph)@),
        final(bound)@ == old(bound)@,
        at is Some <==> forall|k: int|
            0 <= k < ps@.len() ==> (#[trigger] ps@[k]) < f && closed(
                store@,
                ps@[k],
                old(bound)@.len(),
            ),
        at matches Some(at) ==> at < final(graph)@.len() && final(graph)@[at as int].flavour
            == flavour && final(graph)@[at as int].label == Label::Nothing && members_denoted(
            store@,
            final(graph)@,
            ps@,
            f,
            old(bound)@,
            final(graph)@[at as int].children,
        ),
        plain(old(graph)@) ==> plain(final(graph)@),
    decreases f, 0nat, 1nat,
{
    match from_members(graph, store, ps, bound, Ghost(f)) {
        Some(members) => {
            let ghost before = graph@;
            let ghost listed = members@;
            proof {
                assert forall|k: int| 0 <= k < listed.len() implies listed[k] < before.len() by {
                    assert(denoted(store@, before, ps@[k], bound@, listed[k]));
                }
            }
            let at = graph.add(flavour, Label::Nothing, members);
            proof {
                lemma_members_denoted_kept(store@, before, graph@, ps@, f, bound@, listed);
            }
            Some(at)
        },
        None => None,
    }
}

/// The node with the flavour `flavour` that binds a variable in the body
/// `p` of the quantifier `f`.
fn from_binder(
    graph: &mut Graph,
    store: &Store,
    flavour: Flavour,
    p: Id,
    bound: &mut Vec<Id>,
    Ghost(f): Ghost<Id>,
) -> (at: Option<usize>)
    requires
        old(graph).wf(),
        store.wf(),
        f < store@.formulae.len(),
        flavour != Flavour::Top,
        p < f,
    ensures
        final(graph).wf(),
        keeps(old(graph)@, final(graph)@),
        final(bound)@ == old(bound)@,
        at is Some <==> closed(store@, p, old(bound)@.len() + 1),
        at matches Some(at) ==> at < final(graph)@.len() && final(graph)@[at as int].flavour
            == flavour && binder_denoted(store@, final(graph)@, p, f, old(bound)@, at),
        plain(old(graph)@) ==> plain(final(graph)@),
    decreases f, 0nat, 1nat,
{
    let ghost outer = bound@;
    let variable = graph.add(Flavour::Variable, Label::Bound(p), Vec::new());
    bound.push(p);
    let body = from_formula(graph, store, p, bound);
    bound.pop();
    proof {
        assert(bound@ =~= outer);
    }
    match body {
        Some(body) => {
            let ghost before = graph@;
            let at = graph.add(flavour, Label::Nothing, couple(variable, body));
            proof {
                lemma_denoted_kept(store@, before, graph@, p, outer.push(p), body);
                assert(graph@[variable as int] == before[variable as int]);
            }
            Some(at)
        },
        None => None,
    }
}

/// The node of the formula `f`, if its free variables are bound by the
/// quantifiers with the bodies `bound`, innermost last.
pub fn from_formula(graph: &mut Graph, store: &Store, f: Id, bound: &mut Vec<Id>) -> (at: Option<
    usize,
>)
    requires
        old(graph).wf(),
        store.wf(),
        f < store@.formulae.len(),
    ensures
        final(graph).wf(),
        keeps(old(graph)@, final(graph)@),
        final(bound)@ == old(bound)@,
        at is Some <==> closed(store@, f, old(bound)@.len()),
        at matches Some(at) ==> denoted(store@, final(graph)@, f, old(bound)@, at),
        plain(old(graph)@) ==> plain(final(graph)@),
    decreases f, 1nat, 0nat,
{
    proof {
        assert(store@.formula_ok(store@.formulae[f as int], f as int));
    }
    match store.formula(f) {
        Formula::T => Some(graph.add(Flavour::True, Label::Nothing, Vec::new())),
        Formula::F => Some(graph.add(Flavour::False, Label::Nothing, Vec::new())),
        Formula::Eq(ts) => {
            match from_terms(graph, store, ts.as_list(), bound, Ghost(store@.terms.len())) {
                Some(terms) => {
                    let ghost before = graph@;
                    let ghost listed = terms@;
                    proof {
                        assert forall|k: int| 0 <= k < listed.len() implies listed[k]
                            < before.len() by {
                            assert(term_denoted(store@, before, ts@[k], bound@, listed[k]));
                        }
                    }
                    let at = graph.add(Flavour::Equality, Label::Nothing, terms);
                    proof {
                        lemma_terms_denoted_kept(
                            store@,
                            before,
                            graph@,
                            ts@,
                            store@.terms.len(),
                            bound@,
                            listed,
                        );
                    }
                    Some(at)
                },
                None => None,
            }
        },
        Formula::Prd(p, ts) => {
            if ts.len() == 0 {
                Some(graph.add(Flavour::Proposition, Label::Named(*p), Vec::new()))
            } else {
                let head = graph.add(Flavour::PredicateSymbol, Label::Named(*p), Vec::new());
                match from_terms(graph, store, ts, bound, Ghost(store@.terms.len())) {
                    Some(arguments) => {
                        let ghost second = graph@;
                        let ghost listed = arguments@;
                        proof {
                            assert forall|k: int| 0 <= k < listed.len() implies listed[k]
                                < second.len() by {
                                assert(term_denoted(store@, second, ts@[k], bound@, listed[k]));
                            }
                        }
                        let tail = graph.add(Flavour::Arguments, Label::Nothing, arguments);
                        let ghost third = graph@;
                        let at = graph.add(Flavour::Application, Label::Nothing, couple(head, tail));
                        proof {
                            lemma_terms_denoted_kept(
                                store@,
                                second,
                                graph@,
                                ts@,
                                store@.terms.len(),
                                bound@,
                                listed,
                            );
                            assert(graph@[head as int] == third[head as int]);
                            assert(graph@[tail as int] == third[tail as int]);
                            assert(arguments_denoted(
                                store@,
                                graph@,
                                ts@,
                                store@.terms.len(),
                                bound@,
                                tail,
                            ));
                        }
                        Some(at)
                    },
                    None => None,
                }
            }
        },
        Formula::Not(p) => from_negation(graph, store, *p, bound, Ghost(f)),
        Formula::Imp(p, q) => {
            let ghost outer = bound@;
            match from_negation(graph, store, *p, bound, Ghost(f)) {
                Some(premise) => {
                    let ghost first = graph@;
                    match from_formula(graph, store, *q, bound) {
                        Some(conclusion) => {
                            let ghost second = graph@;
                            let at = graph.add(
                                Flavour::Disjunction,
                                Label::Nothing,
                                couple(premise, conclusion),
                            );
                            proof {
                                lemma_negation_denoted_kept(
                                    store@,
                                    first,
                                    graph@,
                                    *p,
                                    f,
                                    outer,
                                    premise,
                                );
                                lemma_denoted_kept(store@, second, graph@, *q, outer, conclusion);
                            }
                            Some(at)
                        },
                        None => None,
                    }
                },
                None => None,
            }
        },
        Formula::Or(ps) => from_connective(
            graph,
            store,
            Flavour::Disjunction,
            ps.as_list(),
            bound,
            Ghost(f),
        ),
        Formula::And(ps) => from_connective(
            graph,
            store,
            Flavour::Conjunction,
            ps.as_list(),
            bound,
            Ghost(f),
        ),
        Formula::Eqv(ps) => from_connective(
            graph,
            store,
            Flavour::Equivalence,
            ps.as_list(),
            bound,
            Ghost(f),
        ),
        Formula::All(p) => from_binder(graph, store, Flavour::Universal, *p, bound, Ghost(f)),
        Formula::Ex(p) => from_binder(graph, store, Flavour::Existential, *p, bound, Ghost(f)),
    }
}

/// The negation of a part stands for what it stood for when nodes are
/// added.
pub proof fn lemma_negation_denoted_kept(
    s: StoreView,
    g: Nodes,
    h: Nodes,
    p: Id,
    parent: Id,
    bound: Seq<Id>,
    at: usize,
)
    requires
        keeps(g, h),
        nodes_ok(g),
        negation_denoted(s, g, p, parent, bound, at),
    ensures
        negation_denoted(s, h, p, parent, bound, at),
{
    assert(h[at as int] == g[at as int]);
    lemma_denoted_kept(s, g, h, p, bound, g[at as int].children[0]);
}

/// The node that negates the node of the part `p` of the formula `f`.
fn from_negation(
    graph: &mut Graph,
    store: &Store,
    p: Id,
    bound: &mut Vec<Id>,
    Ghost(f): Ghost<Id>,
) -> (at: Option<usize>)
    requires
        old(graph).wf(),
        store.wf(),
        f < store@.formulae.len(),
        p < f,
    ensures
        final(graph).wf(),
        keeps(old(graph)@, final(graph)@),
        final(bound)@ == old(bound)@,
        at is Some <==> closed(store@, p, old(bound)@.len()),
        at matches Some(at) ==> negation_denoted(store@, final(graph)@, p, f, old(bound)@, at),
        plain(old(graph)@) ==> plain(final(graph)@),
    decreases f, 0nat, 1nat,
{
    match from_formula(graph, store, p, bound) {
        Some(part) => {
            let ghost before = graph@;
            let at = graph.add(Flavour::Negation, Label::Nothing, single(part));
            proof {
                lemma_denoted_kept(store@, before, graph@, p, bound@, part);
            }
            Some(at)
        },
        None => None,
    }
}

/// The tags of the nodes, in their order.
pub open spec fn tags_of(g: Nodes) -> Seq<u8> {
    Seq::new(g.len(), |i: int| g[i].flavour.tag_of())
}

/// The edges from the node at `at` to the first `n` of its children.
pub open spec fn node_edges(at: usize, children: Seq<usize>, n: nat) -> Seq<(usize, usize)>
    decreases n,
{
    if n == 0 || n > children.len() {
        Seq::empty()
    } else {
        node_edges(at, children, (n - 1) as nat).push((at, children[n - 1]))
    }
}

/// The edges from the first `n` nodes to their children: node after node,
/// and for each node child after child.
pub open spec fn edges_of(g: Nodes, n: nat) -> Seq<(usize, usize)>
    decreases n,
{
    if n == 0 || n > g.len() {
        Seq::empty()
    } else {
        edges_of(g, (n - 1) as nat) + node_edges(
            (n - 1) as usize,
            g[n - 1].children,
            g[n - 1].children.len(),
        )
    }
}

/// Whether `g` is a graph of the closed formula `f`: its last node, the
/// only one of its flavour, stands above the node of `f`.
pub open spec fn is_graph(s: StoreView, f: Id, g: Nodes) -> bool {
    &&& nodes_ok(g)
    &&& g.len() > 0
    &&& plain(g.drop_last())
    &&& g.last().flavour == Flavour::Top
    &&& g.last().label == Label::Nothing
    &&& g.last().children.len() == 1
    &&& denoted(s, g, f, Seq::empty(), g.last().children[0])
}

/// Whether `nodes` and `edges` are the tags and the edges of a graph of the
/// closed formula `f`.
pub open spec fn is_flattened(
    s: StoreView,
    f: Id,
    nodes: Seq<u8>,
    edges: Seq<(usize, usize)>,
) -> bool {
    exists|g: Nodes| #[trigger]
        is_graph(s, f, g) && nodes == tags_of(g) && edges == edges_of(g, g.len())
}

impl Graph {
    /// The tags of the nodes and the edges between them.
    pub fn emit(&self) -> (flat: (Vec<u8>, Vec<(usize, usize)>))
        ensures
            flat.0@ == tags_of(self@),
            flat.1@ == edges_of(self@, self@.len()),
    {
        let mut nodes: Vec<u8> = Vec::new();
        let mut edges: Vec<(usize, usize)> = Vec::new();
        let n = self.nodes.len();
        let mut i: usize = 0;
        while i < n
            invariant
                n == self@.len(),
                n == self.nodes@.len(),
                i <= n,
                nodes@.len() == i,
                forall|k: int| 0 <= k < i ==> nodes@[k] == self@[k].flavour.tag_of(),
                edges@ == edges_of(self@, i as nat),
            decreases n - i,
        {
            let node = &self.nodes[i];
            proof {
                assert(self@[i as int] == node@);
            }
            nodes.push(node.flavour.tag());
            let m = node.children.len();
            let ghost before = edges@;
            let mut k: usize = 0;
            while k < m
                invariant
                    m == node.children@.len(),
                    k <= m,
                    edges@ == before + node_edges(i, node.children@, k as nat),
                decreases m - k,
            {
                edges.push((i, node.children[k]));
                proof {
                    assert(edges@ =~= before + node_edges(i, node.children@, (k + 1) as nat));
                }
                k += 1;
            }
            i += 1;
        }
        proof {
            assert(nodes@ =~= tags_of(self@));
        }
        (nodes, edges)
    }
}

/// The graph of the formula `f` as the tags of its nodes and the edges from
/// each node to its children, if `f` is closed.
pub fn flatten(store: &Store, f: Id) -> (flat: Option<(Vec<u8>, Vec<(usize, usize)>)>)
    requires
        store.wf(),
        f < store@.formulae.len(),
    ensures
        flat is Some <==> closed(store@, f, 0),
        flat matches Some(flat) ==> is_flattened(store@, f, flat.0@, flat.1@),
{
    let mut graph = Graph::new();
    let mut bound: Vec<Id> = Vec::new();
    match from_formula(&mut graph, store, f, &mut bound) {
        Some(whole) => {
            let ghost before = graph@;
            let top = graph.add(Flavour::Top, Label::Nothing, single(whole));
            proof {
                lemma_denoted_kept(store@, before, graph@, f, Seq::empty(), whole);
                assert(bound@ =~= Seq::empty());
                assert(graph@ == before.push(inner(Flavour::Top, seq![whole])));
                assert(graph@.drop_last() =~= before);
                assert(is_graph(store@, f, graph@));
            }
            Some(graph.emit())
        },
        None => None,
    }
}

} // verus!
