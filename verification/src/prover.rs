//! The prover: a search for a refutation of one problem, driven by what
//! the oracle and the heuristic report.

use crate::collections::Id;
use crate::score::Score;
use crate::search::expansion::made_step;
use crate::search::graph::Search;
use crate::search::justified::{
    justified, lemma_initial_justified, lemma_same_justified, lemma_step_justified,
};
use crate::status::Status;
use crate::store::{Store, StoreView};
use vstd::prelude::*;

verus! {

/// What the search is told between two steps.
#[derive(Clone, Copy, Debug, PartialEq, Eq)]
pub enum Event {
    /// The oracle has a verdict on a goal.
    Verdict(Id, Status),
    /// The heuristic has a score for a goal.
    Scored(Id, Score),
    /// Nothing has arrived.
    Idle,
}

/// A problem and the search for its refutation.
pub struct Prover {
    pub problem: Id,
    pub search: Search,
}

impl Prover {
    /// The invariant of a prover: the search started from the problem, its
    /// goals are formulae of the store, and every inference of its graph is
    /// a deduction of its goal.
    pub open spec fn wf(&self, store: StoreView) -> bool {
        &&& self.search.wf()
        &&& self.search.within(store)
        &&& self.search@.root == self.problem
        &&& justified(self.search@, store)
    }

    /// The prover for `problem`, with the problem as the only goal.
    pub fn new(store: &Store, problem: Id) -> (prover: Self)
        requires
            store.wf(),
            problem < store@.formulae.len(),
        ensures
            prover.wf(store@),
            prover.problem == problem,
            prover.search@.status == Map::<Id, Status>::empty().insert(
                problem,
                if store@.formulae[problem as int] is F {
                    Status::Unsat
                } else {
                    Status::Unknown
                },
            ),
    {
        let search = Search::new(store, problem);
        proof {
            assert(search.within(store@)) by {
                assert forall|n: Id| #[trigger] search@.has(n) implies n < store@.formulae.len()
                    && search@.trivial[n] == (store@.formulae[n as int] is F) by {
                    assert(search@.status.dom().contains(n));
                }
            }
            assert forall|n: Id| !search@.expanded(n) by {
                if search@.expanded(n) {
                    assert(search@.has(n));
                    assert(search@.status.dom().contains(n));
                }
            }
            lemma_initial_justified(search@, store@);
        }
        Prover { problem, search }
    }

    /// The verdict on the problem.
    pub fn status(&self) -> (status: Status)
        requires
            self.search.wf(),
        ensures
            status == self.search@.status[self.search@.root],
    {
        self.search.status()
    }

    /// One turn of the search. A verdict or a score is taken for the goal
    /// that it is about, if that is a goal of the search; else, and while
    /// the problem is undecided, the search makes a step. Gives back the
    /// goals that are new, which are to be sent to the oracle and to the
    /// heuristic.
    pub fn search_task<U: Fn(usize, usize, Score) -> Score, M: Fn(&Vec<Score>) -> Score>(
        &mut self,
        store: &mut Store,
        event: Event,
        uct: &U,
        mean: &M,
    ) -> (fresh: Vec<Id>)
        requires
            old(self).wf(old(store)@),
            old(store).wf(),
            forall|parent: usize, child: usize, score: Score| uct.requires((parent, child, score)),
            forall|scores: &Vec<Score>| mean.requires((scores,)),
        ensures
            final(self).wf(final(store)@),
            final(store).wf(),
            final(store)@.extends(old(store)@),
            final(self).problem == old(self).problem,
            final(self).search@.keeps_verdicts(old(self).search@),
            match event {
                Event::Verdict(f, status) => fresh@.len() == 0 && final(store)@ == old(store)@
                    && if old(self).search@.has(f) {
                    &&& final(self).search@.same_shape(old(self).search@)
                    &&& final(self).search@.refines(old(self).search@)
                    &&& final(self).search@.status[f] == if old(self).search@.status[f].known() {
                        old(self).search@.status[f]
                    } else {
                        status
                    }
                } else {
                    final(self).search@ == old(self).search@
                },
                Event::Scored(f, score) => fresh@.len() == 0 && final(store)@ == old(store)@
                    && if old(self).search@.has(f) {
                    &&& final(self).search@.same_verdicts(old(self).search@)
                    &&& final(self).search@.score[f] == if old(self).search@.status[f].known() {
                        old(self).search@.score[f]
                    } else {
                        score
                    }
                    &&& old(self).search@.status[f].known() ==> final(self).search@.score == old(
                        self,
                    ).search@.score
                    &&& !old(self).search@.status[f].known() ==> crate::search::scoring::scored(
                        old(self).search@,
                        final(self).search@,
                        f,
                        score,
                        mean,
                    )
                } else {
                    final(self).search@ == old(self).search@
                },
                Event::Idle => if old(self).search@.status[old(self).problem].known() {
                    fresh@.len() == 0 && final(store)@ == old(store)@ && final(self).search@ == old(
                        self,
                    ).search@
                } else {
                    made_step(
                        old(store)@,
                        final(store)@,
                        old(self).search@,
                        final(self).search@,
                        fresh@,
                    ) && crate::search::expansion::made_step_by(
                        old(store)@,
                        final(store)@,
                        old(self).search@,
                        final(self).search@,
                        fresh@,
                        uct,
                    )
                },
            },
    {
        let ghost before = self.search@;
        let ghost held = store@;
        match event {
            Event::Verdict(f, status) => {
                if self.search.contains(f) {
                    self.search.set_status(f, status);
                    proof {
                        lemma_same_justified(before, self.search@, held, store@);
                        assert(self.search.within(store@)) by {
                            assert forall|n: Id| #[trigger] self.search@.has(n) implies n
                                < store@.formulae.len() && self.search@.trivial[n] == (
                            store@.formulae[n as int] is F) by {
                                assert(before.has(n));
                            }
                        }
                    }
                }
                Vec::new()
            },
            Event::Scored(f, score) => {
                if self.search.contains(f) {
                    self.search.set_score(f, score, mean);
                    proof {
                        lemma_same_justified(before, self.search@, held, store@);
                        assert(self.search.within(store@)) by {
                            assert forall|n: Id| #[trigger] self.search@.has(n) implies n
                                < store@.formulae.len() && self.search@.trivial[n] == (
                            store@.formulae[n as int] is F) by {
                                assert(before.has(n));
                            }
                        }
                    }
                }
                Vec::new()
            },
            Event::Idle => {
                if self.search.status().is_known() {
                    Vec::new()
                } else {
                    match self.search.do_step(store, uct) {
                        Some(fresh) => {
                            proof {
                                lemma_step_justified(held, store@, before, self.search@, fresh@);
                            }
                            fresh
                        },
                        None => Vec::new(),
                    }
                }
            },
        }
    }
}

} // verus!
