//! The search graph as it is kept.

use crate::collections::{Id, IdSet};
use crate::score::Score;
use crate::search::view::SearchView;
use crate::status::Status;
use crate::store::Store;

use std::collections::HashMap;
use vstd::prelude::*;

verus! {

broadcast use vstd::std_specs::hash::group_hash_axioms;

/// What the search knows of one goal.
pub struct Node {
    pub parents: Vec<Id>,
    pub children: Option<Vec<IdSet>>,
    pub score: Score,
    pub status: Status,
    pub visits: usize,
}

/// The search graph. Its goals are formulae of one store; the goal it
/// started from is its root.
pub struct Search {
    pub(crate) root: Id,
    pub(crate) status: HashMap<Id, Status>,
    pub(crate) score: HashMap<Id, Score>,
    pub(crate) visits: HashMap<Id, usize>,
    pub(crate) trivial: HashMap<Id, bool>,
    pub(crate) parents: HashMap<Id, Vec<Id>>,
    pub(crate) children: HashMap<Id, Vec<IdSet>>,
    pub(crate) rank: Ghost<Map<Id, nat>>,
    pub(crate) bound: Ghost<nat>,
    pub(crate) forced: Ghost<Set<Id>>,
}

/// The members of each of a list of inferences.
pub open spec fn inference_views(list: Seq<IdSet>) -> Seq<Seq<Id>> {
    Seq::new(list.len(), |i: int| list[i]@)
}

impl View for Search {
    type V = SearchView;

    closed spec fn view(&self) -> SearchView {
        SearchView {
            root: self.root,
            status: self.status@,
            score: self.score@,
            visits: self.visits@,
            trivial: self.trivial@,
            parents: Map::new(|n: Id| self.parents@.contains_key(n), |n: Id| self.parents@[n]@),
            children: Map::new(
                |n: Id| self.children@.contains_key(n),
                |n: Id| inference_views(self.children@[n]@),
            ),
            rank: self.rank@,
            bound: self.bound@,
            forced: self.forced@,
        }
    }
}

impl Search {
    /// The invariant of the search graph.
    pub open spec fn wf(&self) -> bool {
        self@.wf()
    }

    /// What the view says of the maps that the graph is kept in.
    pub(crate) proof fn lemma_view(&self)
        ensures
            self@.root == self.root,
            self@.status == self.status@,
            self@.score == self.score@,
            self@.visits == self.visits@,
            self@.trivial == self.trivial@,
            self@.rank == self.rank@,
            self@.bound == self.bound@,
            self@.forced == self.forced@,
            forall|n: Id| self@.parents.contains_key(n) <==> self.parents@.contains_key(n),
            forall|n: Id| self.parents@.contains_key(n) ==> self@.parents[n] == self.parents@[n]@,
            forall|n: Id| self@.children.contains_key(n) <==> self.children@.contains_key(n),
            forall|n: Id|
                self.children@.contains_key(n) ==> self@.children[n] == inference_views(
                    self.children@[n]@,
                ),
    {
    }

    /// The search graph that holds the goal `f` alone.
    pub fn new(store: &Store, f: Id) -> (search: Self)
        requires
            f < store@.formulae.len(),
        ensures
            search.wf(),
            search@.root == f,
            search@.status == Map::<Id, Status>::empty().insert(
                f,
                if store@.formulae[f as int] is F {
                    Status::Unsat
                } else {
                    Status::Unknown
                },
            ),
            !search@.expanded(f),
            search@.forced == Set::<Id>::empty(),
            search@.visits[f] == 0,
            search@.score[f] == Score(0),
            search@.trivial[f] == (store@.formulae[f as int] is F),
    {
        let trivial = store.formula(f).is_false();
        let initial = if trivial {
            Status::Unsat
        } else {
            Status::Unknown
        };
        let mut status: HashMap<Id, Status> = HashMap::new();
        status.insert(f, initial);
        let mut score: HashMap<Id, Score> = HashMap::new();
        score.insert(f, Score(0));
        let mut visits: HashMap<Id, usize> = HashMap::new();
        visits.insert(f, 0);
        let mut trivials: HashMap<Id, bool> = HashMap::new();
        trivials.insert(f, trivial);
        let mut parents: HashMap<Id, Vec<Id>> = HashMap::new();
        parents.insert(f, Vec::new());
        let children: HashMap<Id, Vec<IdSet>> = HashMap::new();
        let search = Search {
            root: f,
            status,
            score,
            visits,
            trivial: trivials,
            parents,
            children,
            rank: Ghost(Map::<Id, nat>::empty().insert(f, 0nat)),
            bound: Ghost(0nat),
            forced: Ghost(Set::<Id>::empty()),
        };
        proof {
            let s = search@;
            search.lemma_view();
            assert forall|n: Id, m: Id| !(#[trigger] s.edge(n, m)) by {}
            assert forall|m: Id, p: Id| s.has(m) implies !(#[trigger] s.parents[m].contains(p)) by {
                assert(s.parents[m] == Seq::<Id>::empty());
            }
            assert(s.status.dom() =~= Set::<Id>::empty().insert(f));
        }
        search
    }

    /// The verdict on the goal that the search started from.
    pub fn status(&self) -> (status: Status)
        requires
            self.wf(),
        ensures
            status == self@.status[self@.root],
    {
        proof {
            self.lemma_view();
        }
        *self.status.get(&self.root).unwrap()
    }

    /// The goal that the search started from.
    pub fn root(&self) -> (root: Id)
        ensures
            root == self@.root,
    {
        self.root
    }

    /// Whether `f` is a goal of the graph.
    pub fn contains(&self, f: Id) -> (found: bool)
        ensures
            found == self@.has(f),
    {
        self.status.contains_key(&f)
    }

    /// The verdict on the goal `f`.
    pub fn node_status(&self, f: Id) -> (status: Status)
        requires
            self@.has(f),
        ensures
            status == self@.status[f],
    {
        *self.status.get(&f).unwrap()
    }

    /// The score of the goal `f`.
    pub fn node_score(&self, f: Id) -> (score: Score)
        requires
            self@.complete(),
            self@.has(f),
        ensures
            score == self@.score[f],
    {
        proof {
            self.lemma_view();
        }
        *self.score.get(&f).unwrap()
    }

    /// How often the goal `f` was visited.
    pub fn node_visits(&self, f: Id) -> (visits: usize)
        requires
            self@.complete(),
            self@.has(f),
        ensures
            visits == self@.visits[f],
    {
        proof {
            self.lemma_view();
        }
        *self.visits.get(&f).unwrap()
    }

    /// The goals that the goal `f` was inferred from.
    pub fn node_parents(&self, f: Id) -> (parents: &Vec<Id>)
        requires
            self@.complete(),
            self@.has(f),
        ensures
            parents@ == self@.parents[f],
    {
        proof {
            self.lemma_view();
        }
        self.parents.get(&f).unwrap()
    }

    /// The inferences of the goal `f`, once it is expanded.
    pub fn node_children(&self, f: Id) -> (children: Option<&Vec<IdSet>>)
        requires
            self@.linked(),
        ensures
            match children {
                Some(list) => self@.expanded(f) && inference_views(list@) == self@.children[f]
                    && forall|i: int| 0 <= i < list@.len() ==> (#[trigger] list@[i]).wf(),
                None => !self@.expanded(f),
            },
    {
        proof {
            self.lemma_view();
        }
        let children = self.children.get(&f);
        proof {
            match children {
                Some(list) => {
                    assert forall|i: int| 0 <= i < list@.len() implies (#[trigger] list@[i]).wf() by {
                        assert(self@.children[f][i] == list@[i]@);
                    }
                },
                None => {},
            }
        }
        children
    }

    /// What the search knows of the goal `f`, if it is a goal of the graph.
    pub fn node(&self, f: Id) -> (node: Option<Node>)
        requires
            self.wf(),
        ensures
            match node {
                Some(node) => self@.has(f) && node.status == self@.status[f] && node.score
                    == self@.score[f] && node.visits == self@.visits[f] && node.parents@
                    == self@.parents[f] && match node.children {
                    Some(list) => self@.expanded(f) && inference_views(list@) == self@.children[f],
                    None => !self@.expanded(f),
                },
                None => !self@.has(f),
            },
    {
        if !self.contains(f) {
            return None;
        }
        let parents = self.node_parents(f).clone();
        let children = match self.node_children(f) {
            Some(list) => {
                let mut copy: Vec<IdSet> = Vec::new();
                let mut i: usize = 0;
                while i < list.len()
                    invariant
                        i <= list.len(),
                        copy@.len() == i,
                        forall|j: int| 0 <= j < i ==> (#[trigger] copy@[j])@ == list@[j]@,
                    decreases list.len() - i,
                {
                    copy.push(list[i].clone());
                    i += 1;
                }
                proof {
                    assert(inference_views(copy@) =~= inference_views(list@));
                }
                Some(copy)
            },
            None => None,
        };
        Some(
            Node {
                parents,
                children,
                score: self.node_score(f),
                status: self.node_status(f),
                visits: self.node_visits(f),
            },
        )
    }
}

} // verus!
