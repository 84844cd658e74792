//! Recording scores and passing them on to the goals above.

use crate::collections::{Id, IdSet};
use crate::score::Score;
use crate::search::ancestry::{ancestor, ancestors, breadth_first};
use crate::search::graph::{inference_views, Search};
use crate::search::view::SearchView;
use crate::status::Status;
use vstd::prelude::*;

verus! {

broadcast use vstd::std_specs::hash::group_hash_axioms;

impl SearchView {
    /// Whether this graph differs from `old` in scores and in numbers of
    /// visits alone.
    pub open spec fn same_verdicts(self, old: SearchView) -> bool {
        &&& self.root == old.root
        &&& self.status == old.status
        &&& self.trivial == old.trivial
        &&& self.parents == old.parents
        &&& self.children == old.children
        &&& self.rank == old.rank
        &&& self.bound == old.bound
        &&& self.forced == old.forced
        &&& self.score.dom() == old.score.dom()
        &&& self.visits.dom() == old.visits.dom()
    }
}

/// A graph that differs from a sound one in scores and in numbers of visits
/// alone is sound.
pub proof fn lemma_same_verdicts(old: SearchView, new: SearchView)
    requires
        old.wf(),
        new.same_verdicts(old),
    ensures
        new.wf(),
        new.keeps_verdicts(old),
        new.refines(old),
{
    assert forall|n: Id, m: Id| new.edge(n, m) == old.edge(n, m) by {}
    assert forall|n: Id| new.has(n) <==> new.score.contains_key(n) by {
        assert(old.has(n) <==> old.score.contains_key(n));
        assert(new.score.dom().contains(n) == old.score.dom().contains(n));
    }
    assert forall|n: Id| new.has(n) <==> new.visits.contains_key(n) by {
        assert(old.has(n) <==> old.visits.contains_key(n));
        assert(new.visits.dom().contains(n) == old.visits.dom().contains(n));
    }
    assert(forall|n: Id| new.has(n) == old.has(n));
    assert(forall|n: Id| new.has(n) <==> new.trivial.contains_key(n));
    assert(forall|n: Id| new.has(n) <==> new.parents.contains_key(n));
    assert(forall|n: Id| new.has(n) <==> new.rank.contains_key(n));
    assert(forall|n: Id| new.expanded(n) ==> new.has(n));
    assert(forall|n: Id| new.forced.contains(n) ==> new.has(n));
    assert(new.status.dom().finite());
    assert(new.complete());
    assert(new.linked());
    assert(new.ranked());
    assert(new.decided());
    assert(new.shaped());
    assert forall|n: Id| new.has(n) && !new.forced.contains(n) implies #[trigger] new.status[n]
        == (if new.expanded(n) {
        new.computed(n)
    } else {
        new.initial(n)
    }) by {
        assert(old.status[n] == old.target(n));
        if old.expanded(n) {
            crate::search::view::lemma_computed_local(old, new, n);
        }
    }
}

/// The scores of those of the first `n` members of the inference that are
/// `Unknown`, in the order of the members.
pub open spec fn unknown_scores(s: SearchView, inference: Seq<Id>, n: nat) -> Seq<Score>
    decreases n,
{
    if n == 0 || n > inference.len() {
        Seq::empty()
    } else {
        let rest = unknown_scores(s, inference, (n - 1) as nat);
        if s.status[inference[n - 1]] == Status::Unknown {
            rest.push(s.score[inference[n - 1]])
        } else {
            rest
        }
    }
}

/// Whether `score` is what `mean` makes of the scores `scores`.
pub open spec fn is_mean<M: Fn(&Vec<Score>) -> Score>(
    mean: &M,
    scores: Seq<Score>,
    score: Score,
) -> bool {
    exists|list: &Vec<Score>| list@ == scores && #[trigger] mean.ensures((list,), score)
}

/// Whether `score` is the score of the inference: zero if a member is
/// `Sat`; else what `mean` makes of the scores of the members that are
/// `Unknown`, or one if there are none.
pub open spec fn inference_scored<M: Fn(&Vec<Score>) -> Score>(
    s: SearchView,
    inference: Seq<Id>,
    mean: &M,
    score: Score,
) -> bool {
    if s.some_sat(inference) {
        score == Score(0)
    } else if unknown_scores(s, inference, inference.len()).len() == 0 {
        score == Score(0x3f80_0000)
    } else {
        is_mean(mean, unknown_scores(s, inference, inference.len()), score)
    }
}

/// The largest of the first `n` of the scores, the last of several that
/// are largest; zero if there are none.
pub open spec fn largest(scores: Seq<Score>, n: nat) -> Score
    decreases n,
{
    if n == 0 || n > scores.len() {
        Score(0)
    } else {
        let best = largest(scores, (n - 1) as nat);
        if scores[n - 1].0 < best.0 {
            best
        } else {
            scores[n - 1]
        }
    }
}

/// Whether `scores` holds a score of each of the first `n` inferences of
/// the goal `f`, in their order.
pub open spec fn inferences_scored<M: Fn(&Vec<Score>) -> Score>(
    s: SearchView,
    f: Id,
    mean: &M,
    scores: Seq<Score>,
    n: int,
) -> bool {
    forall|i: int|
        0 <= i < n ==> inference_scored(s, s.children[f][i], mean, #[trigger] scores[i])
}

/// Whether `score` is the score that its inferences give the expanded goal
/// `f`: the largest of the scores of its inferences, or zero if it has
/// none.
pub open spec fn computed_scored<M: Fn(&Vec<Score>) -> Score>(
    s: SearchView,
    f: Id,
    mean: &M,
    score: Score,
) -> bool {
    exists|scores: Seq<Score>|
        scores.len() == s.children[f].len() && #[trigger] inferences_scored(
            s,
            f,
            mean,
            scores,
            scores.len() as int,
        ) && score == largest(scores, scores.len())
}

/// Whether the graph `b` is the graph `m` with the score `score` for the
/// goal `x`.
pub open spec fn rescored_step(m: SearchView, b: SearchView, x: Id, score: Score) -> bool {
    b.same_verdicts(m) && b.visits == m.visits && b.score == m.score.insert(x, score)
}

/// Whether the graph `b` is what the graph `a` becomes when the first `n`
/// of the goals `above` get, one after the other, the score that their
/// inferences give them at that time.
pub open spec fn rescored<M: Fn(&Vec<Score>) -> Score>(
    a: SearchView,
    b: SearchView,
    above: Seq<Id>,
    n: nat,
    mean: &M,
) -> bool
    decreases n,
{
    if n == 0 || n > above.len() {
        b.same_verdicts(a) && b.visits == a.visits && b.score == a.score
    } else {
        exists|m: SearchView, score: Score| #[trigger]
            rescored_step(m, b, above[n - 1], score) && rescored(
                a,
                m,
                above,
                (n - 1) as nat,
                mean,
            ) && computed_scored(m, above[n - 1], mean, score)
    }
}

/// Whether the graph `b` is what the graph `a` becomes when the goal `f`
/// gets the score `score` and the goals above `f` then get, one after the
/// other, the score that their inferences give them at that time.
pub open spec fn scored<M: Fn(&Vec<Score>) -> Score>(
    a: SearchView,
    b: SearchView,
    f: Id,
    score: Score,
    mean: &M,
) -> bool {
    exists|m: SearchView| #[trigger] rescored_step(a, m, f, score) && rescored_above(m, b, f, mean)
}

/// Whether the graph `b` is what the graph `a` becomes when the goals above
/// `start` get, one after the other in breadth-first order, the score that
/// their inferences give them at that time.
pub open spec fn rescored_above<M: Fn(&Vec<Score>) -> Score>(
    a: SearchView,
    b: SearchView,
    start: Id,
    mean: &M,
) -> bool {
    exists|above: Seq<Id>|
        ancestors(a, start, above) && breadth_first(a, start, above) && #[trigger] rescored(
            a,
            b,
            above,
            above.len(),
            mean,
        )
}

/// The largest of the first scores does not depend on the scores after
/// them.
pub proof fn lemma_largest_prefix(scores: Seq<Score>, next: Score, n: nat)
    requires
        n <= scores.len(),
    ensures
        largest(scores.push(next), n) == largest(scores, n),
    decreases n,
{
    if n > 0 {
        lemma_largest_prefix(scores, next, (n - 1) as nat);
        assert(scores.push(next)[n - 1] == scores[n - 1]);
    }
}

impl Search {
    /// Gives the goal `f` the score `score`.
    fn write_score(&mut self, f: Id, score: Score)
        requires
            old(self)@.complete(),
            old(self)@.has(f),
        ensures
            final(self)@.same_verdicts(old(self)@),
            final(self)@.visits == old(self)@.visits,
            final(self)@.score == old(self)@.score.insert(f, score),
    {
        proof {
            self.lemma_view();
        }
        let ghost before = self@;
        self.score.insert(f, score);
        proof {
            self.lemma_view();
            assert(self@.parents =~= before.parents);
            assert(self@.children =~= before.children);
            assert(self@.score.dom() =~= before.score.dom());
        }
    }

    /// Counts one more visit of the goal `f`, unless the count is at its
    /// limit.
    pub(crate) fn count_visit(&mut self, f: Id)
        requires
            old(self)@.complete(),
            old(self)@.has(f),
        ensures
            final(self)@.same_verdicts(old(self)@),
            final(self)@.score == old(self)@.score,
            final(self)@.visits == old(self)@.visits.insert(
                f,
                if old(self)@.visits[f] < usize::MAX {
                    (old(self)@.visits[f] + 1) as usize
                } else {
                    usize::MAX
                },
            ),
    {
        proof {
            self.lemma_view();
        }
        let ghost before = self@;
        let visits = *self.visits.get(&f).unwrap();
        let more = if visits < usize::MAX {
            visits + 1
        } else {
            visits
        };
        self.visits.insert(f, more);
        proof {
            self.lemma_view();
            assert(self@.parents =~= before.parents);
            assert(self@.children =~= before.children);
            assert(self@.visits.dom() =~= before.visits.dom());
        }
    }

    /// The score of an inference: zero if a member is `Sat`; else what
    /// `mean` makes of the scores of the members that are `Unknown`, or one
    /// if there are none.
    fn inference_score<M: Fn(&Vec<Score>) -> Score>(&self, inference: &IdSet, mean: &M) -> (score:
        Score)
        requires
            self@.complete(),
            forall|j: int| 0 <= j < inference@.len() ==> self@.has(inference@[j]),
            forall|scores: &Vec<Score>| mean.requires((scores,)),
        ensures
            inference_scored(self@, inference@, mean, score),
    {
        let n = inference.len();
        let mut scores: Vec<Score> = Vec::new();
        let mut j: usize = 0;
        while j < n
            invariant
                n == inference@.len(),
                j <= n,
                self@.complete(),
                forall|x: int| 0 <= x < inference@.len() ==> self@.has(inference@[x]),
                forall|x: int| 0 <= x < j ==> self@.status[#[trigger] inference@[x]] != Status::Sat,
                scores@ == unknown_scores(self@, inference@, j as nat),
            decreases n - j,
        {
            let member = inference.at(j);
            match self.node_status(member) {
                Status::Sat => {
                    proof {
                        assert(self@.status[inference@[j as int]] == Status::Sat);
                        assert(self@.some_sat(inference@));
                    }
                    return Score::zero();
                },
                Status::Unsat => {},
                Status::Unknown => {
                    scores.push(self.node_score(member));
                },
            }
            j += 1;
        }
        proof {
            assert(!self@.some_sat(inference@));
        }
        if scores.len() != 0 {
            let score = mean(&scores);
            proof {
                assert(is_mean(mean, unknown_scores(self@, inference@, inference@.len()), score));
            }
            score
        } else {
            Score::one()
        }
    }

    /// The score that its inferences give the expanded goal `f`: the
    /// largest of the scores of its inferences, or zero if it has none.
    fn computed_score<M: Fn(&Vec<Score>) -> Score>(&self, f: Id, mean: &M) -> (score: Score)
        requires
            self@.shaped(),
            self@.expanded(f),
            forall|scores: &Vec<Score>| mean.requires((scores,)),
        ensures
            computed_scored(self@, f, mean, score),
    {
        proof {
            self.lemma_view();
        }
        let list = self.children.get(&f).unwrap();
        let n = list.len();
        let mut best = Score::zero();
        let mut i: usize = 0;
        let ghost mut found: Seq<Score> = Seq::empty();
        while i < n
            invariant
                n == list@.len(),
                i <= n,
                self@.shaped(),
                self@.expanded(f),
                inference_views(list@) == self@.children[f],
                forall|scores: &Vec<Score>| mean.requires((scores,)),
                found.len() == i,
                inferences_scored(self@, f, mean, found, i as int),
                best == largest(found, i as nat),
            decreases n - i,
        {
            proof {
                let inference = self@.children[f][i as int];
                assert(inference == list@[i as int]@);
                assert forall|j: int| 0 <= j < inference.len() implies self@.has(
                    inference[j],
                ) by {
                    assert(inference.contains(inference[j]));
                    assert(self@.edge(f, inference[j]));
                }
            }
            let score = self.inference_score(&list[i], mean);
            proof {
                let earlier = found;
                found = found.push(score);
                assert forall|k: int| 0 <= k < i + 1 implies inference_scored(
                    self@,
                    self@.children[f][k],
                    mean,
                    #[trigger] found[k],
                ) by {
                    if k < i {
                        assert(found[k] == earlier[k]);
                        assert(inference_scored(self@, self@.children[f][k], mean, earlier[k]));
                    }
                }
                assert(largest(found, i as nat) == largest(earlier, i as nat)) by {
                    lemma_largest_prefix(earlier, score, i as nat);
                }
            }
            if !score.less(best) {
                best = score;
            }
            i += 1;
        }
        proof {
            assert(self@.children[f].len() == n);
        }
        best
    }

    /// Gives each goal above `start`, nearest first, the score that its
    /// inferences give it.
    fn propagate_score<M: Fn(&Vec<Score>) -> Score>(&mut self, start: Id, mean: &M)
        requires
            old(self).wf(),
            old(self)@.has(start),
            forall|scores: &Vec<Score>| mean.requires((scores,)),
        ensures
            final(self).wf(),
            final(self)@.same_verdicts(old(self)@),
            final(self)@.visits == old(self)@.visits,
            forall|n: Id|
                old(self)@.has(n) && !ancestor(old(self)@, n, start) ==> final(self)@.score[n]
                    == old(self)@.score[n],
            rescored_above(old(self)@, final(self)@, start, mean),
    {
        let above = self.ancestors_of(start);
        let n = above.len();
        let mut i: usize = 0;
        while i < n
            invariant
                n == above@.len(),
                i <= n,
                self.wf(),
                self@.same_verdicts(old(self)@),
                self@.visits == old(self)@.visits,
                ancestors(old(self)@, start, above@),
                breadth_first(old(self)@, start, above@),
                rescored(old(self)@, self@, above@, i as nat, mean),
                forall|scores: &Vec<Score>| mean.requires((scores,)),
                forall|x: Id|
                    old(self)@.has(x) && !ancestor(old(self)@, x, start) ==> self@.score[x]
                        == old(self)@.score[x],
            decreases n - i,
        {
            let ghost before = self@;
            let a = above[i];
            proof {
                assert(above@.contains(above@[i as int]));
                assert(old(self)@.has(a) && ancestor(old(self)@, a, start));
                let path = choose|path: Seq<Id>|
                    crate::search::ancestry::leads(old(self)@, path, a, start);
                assert(old(self)@.edge(path[0], path[1]));
                assert(self@.expanded(a));
                assert(self@.status.dom().contains(a));
            }
            let score = self.computed_score(a, mean);
            self.write_score(a, score);
            proof {
                lemma_same_verdicts(before, self@);
                assert(a == above@[i as int]);
                assert(rescored(old(self)@, before, above@, i as nat, mean));
                assert(computed_scored(before, above@[i as int], mean, score));
                assert(rescored_step(before, self@, above@[i as int], score));
                assert(above@[(i + 1) - 1] == above@[i as int]);
                assert(rescored(old(self)@, self@, above@, (i + 1) as nat, mean));
            }
            i += 1;
        }
        proof {
            assert(rescored(old(self)@, self@, above@, above@.len(), mean));
        }
    }

    /// Records the score `score` of the goal `f`.
    ///
    /// A goal that has a final verdict keeps its score. Any other goal gets
    /// the score, and each goal above it then gets the score that its
    /// inferences give it: the largest of the scores of its inferences,
    /// where an inference with a member that is `Sat` scores zero, and any
    /// other scores what `mean` makes of the scores of its members that are
    /// `Unknown`, or one if it has none. No verdict changes.
    pub fn set_score<M: Fn(&Vec<Score>) -> Score>(&mut self, f: Id, score: Score, mean: &M)
        requires
            old(self).wf(),
            old(self)@.has(f),
            forall|scores: &Vec<Score>| mean.requires((scores,)),
        ensures
            final(self).wf(),
            final(self)@.same_verdicts(old(self)@),
            final(self)@.keeps_verdicts(old(self)@),
            final(self)@.visits == old(self)@.visits,
            final(self)@.score[f] == if old(self)@.status[f].known() {
                old(self)@.score[f]
            } else {
                score
            },
            old(self)@.status[f].known() ==> final(self)@.score == old(self)@.score,
            !old(self)@.status[f].known() ==> scored(old(self)@, final(self)@, f, score, mean),
            forall|n: Id|
                old(self)@.has(n) && n != f && !ancestor(old(self)@, n, f) ==> final(self)@.score[n]
                    == old(self)@.score[n],
    {
        let ghost before = self@;
        if !self.node_status(f).is_known() {
            self.write_score(f, score);
            let ghost middle = self@;
            proof {
                lemma_same_verdicts(before, middle);
                assert forall|n: Id, m: Id| middle.edge(n, m) == before.edge(n, m) by {}
                assert(middle.status.dom().contains(f));
            }
            self.propagate_score(f, mean);
            proof {
                let s = self@;
                assert(rescored_step(before, middle, f, score));
                assert(rescored_above(middle, s, f, mean));
                lemma_same_verdicts(before, s);
                crate::search::ancestry::lemma_not_own_ancestor(middle, f);
                assert forall|n: Id|
                    before.has(n) && n != f && !ancestor(before, n, f) implies s.score[n]
                    == before.score[n] by {
                    assert(middle.has(n));
                    if ancestor(middle, n, f) {
                        let path = choose|path: Seq<Id>|
                            crate::search::ancestry::leads(middle, path, n, f);
                        assert(before.is_path(path)) by {
                            assert forall|i: int| 0 <= i < path.len() - 1 implies before.edge(
                                #[trigger] path[i],
                                path[i + 1],
                            ) by {
                                assert(middle.edge(path[i], path[i + 1]));
                            }
                        }
                        assert(crate::search::ancestry::leads(before, path, n, f));
                    }
                }
            }
        } else {
            proof {
                lemma_same_verdicts(before, self@);
            }
        }
    }
}

} // verus!
