//! Choosing the goal to expand next.

use crate::collections::{Id, IdSet};
use crate::score::Score;
use crate::search::ancestry::{ancestor, lemma_ancestor_step, leads};
use crate::search::graph::{inference_views, Search};
use crate::search::scoring::lemma_same_verdicts;
use crate::search::view::{lemma_computed, SearchView};
use crate::status::Status;
use vstd::prelude::*;

verus! {

broadcast use vstd::std_specs::hash::group_hash_axioms;

impl SearchView {
    /// Whether `m` is a member of `inference` that is `Unknown` and scores
    /// no more than any other such member.
    pub open spec fn lowest_unknown(self, inference: Seq<Id>, m: Id) -> bool {
        &&& inference.contains(m)
        &&& self.status[m] == Status::Unknown
        &&& forall|x: Id|
            inference.contains(x) && self.status[x] == Status::Unknown ==> self.score[m].0
                <= #[trigger] self.score[x].0
    }

    /// Whether `leaf` is a goal at the frontier of the search: it is the
    /// root or below the root, it is `Unknown`, and it is not expanded.
    pub open spec fn is_frontier(self, leaf: Id) -> bool {
        &&& self.has(leaf)
        &&& !self.expanded(leaf)
        &&& self.status[leaf] == Status::Unknown
        &&& (leaf == self.root || ancestor(self, self.root, leaf))
    }

    /// Whether the walk of selection can go from the goal `x` to the goal
    /// `m`: `m` is, in an inference of `x` without a member that is `Sat`,
    /// a member that is `Unknown` and scores no more than any other such
    /// member.
    pub open spec fn walks(self, x: Id, m: Id) -> bool {
        self.expanded(x) && exists|k: int|
            0 <= k < self.children[x].len() && !self.blocked_at(x, k) && self.lowest_unknown(
                #[trigger] self.children[x][k],
                m,
            )
    }

    /// Whether `path` is a walk of selection from the root to `leaf`.
    pub open spec fn is_walk(self, path: Seq<Id>, leaf: Id) -> bool {
        &&& path.len() >= 1
        &&& path[0] == self.root
        &&& path.last() == leaf
        &&& forall|i: int| 0 <= i < path.len() - 1 ==> self.walks(#[trigger] path[i], path[i + 1])
    }

    /// Whether the visits of this graph are those of `old` with one more
    /// visit of each goal of `path`, as far as the count goes.
    pub open spec fn counted(self, old: SearchView, path: Seq<Id>) -> bool {
        forall|n: Id|
            old.has(n) ==> #[trigger] self.visits[n] == if path.contains(n) {
                one_more(old.visits[n])
            } else {
                old.visits[n]
            }
    }

    /// Whether this graph is what selection makes of `old` when it walks to
    /// `leaf`: there is a walk from the root to `leaf`, and each goal of
    /// the walk has one more visit.
    pub open spec fn selected(self, old: SearchView, leaf: Id) -> bool {
        exists|path: Seq<Id>| #[trigger] old.is_walk(path, leaf) && self.counted(old, path)
    }

    /// Whether no number of visits is smaller than in `old`.
    pub open spec fn visited_since(self, old: SearchView) -> bool {
        forall|n: Id| old.has(n) ==> #[trigger] self.visits[n] >= old.visits[n]
    }
}

/// The lowest score of the first `n` members of the inference, if there
/// is a member.
pub open spec fn least_score(s: SearchView, inference: Seq<Id>, n: nat) -> Option<Score>
    decreases n,
{
    if n == 0 || n > inference.len() {
        None
    } else {
        let score = s.score[inference[n - 1]];
        match least_score(s, inference, (n - 1) as nat) {
            Some(least) => if score.0 < least.0 {
                Some(score)
            } else {
                Some(least)
            },
            None => Some(score),
        }
    }
}

/// The lowest score of a member of the inference; zero if it has none.
pub open spec fn lowest_score(s: SearchView, inference: Seq<Id>) -> Score {
    match least_score(s, inference, inference.len()) {
        Some(least) => least,
        None => Score(0),
    }
}

/// The visits of the first `n` members of the inference together, as far
/// as the count goes.
pub open spec fn visits_of(s: SearchView, inference: Seq<Id>, n: nat) -> usize
    decreases n,
{
    if n == 0 || n > inference.len() {
        0
    } else {
        let sofar = visits_of(s, inference, (n - 1) as nat);
        let more = s.visits[inference[n - 1]];
        if sofar <= usize::MAX - more {
            (sofar + more) as usize
        } else {
            usize::MAX
        }
    }
}

/// Of the first `n` inferences of the goal `x`, the position of the one
/// without a member that is `Sat` that has the highest of the values
/// `values`; of several, the last. None if each has a member that is `Sat`.
pub open spec fn last_best(s: SearchView, x: Id, values: Seq<Score>, n: nat) -> Option<int>
    decreases n,
{
    if n == 0 || n > values.len() {
        None
    } else {
        let before = last_best(s, x, values, (n - 1) as nat);
        if s.blocked_at(x, n - 1) {
            before
        } else {
            match before {
                Some(b) => if values[n - 1].0 < values[b].0 {
                    before
                } else {
                    Some(n - 1)
                },
                None => Some(n - 1),
            }
        }
    }
}

/// Whether `values` holds, for each of the first `n` inferences of the goal
/// `x` without a member that is `Sat`, a value that `uct` gives it: for the
/// visits of `x`, the visits of the members of the inference together, and
/// the lowest score of a member.
pub open spec fn valued<U: Fn(usize, usize, Score) -> Score>(
    s: SearchView,
    x: Id,
    uct: &U,
    values: Seq<Score>,
    n: int,
) -> bool {
    forall|i: int|
        0 <= i < n && !s.blocked_at(x, i) ==> uct.ensures(
            (
                s.visits[x],
                visits_of(s, s.children[x][i], s.children[x][i].len()),
                lowest_score(s, s.children[x][i]),
            ),
            #[trigger] values[i],
        )
}

/// Whether the inference at `k` is the one that selection takes at the
/// goal `x`.
pub open spec fn takes<U: Fn(usize, usize, Score) -> Score>(
    s: SearchView,
    x: Id,
    uct: &U,
    k: int,
) -> bool {
    exists|values: Seq<Score>|
        values.len() == s.children[x].len() && #[trigger] valued(
            s,
            x,
            uct,
            values,
            values.len() as int,
        ) && last_best(s, x, values, values.len()) == Some(k)
}

/// Whether `m` is the member of the inference that selection goes on to:
/// of the members that are `Unknown`, the one with the lowest score, and of
/// several the one with the lowest identifier.
pub open spec fn first_lowest(s: SearchView, inference: Seq<Id>, m: Id) -> bool {
    &&& s.lowest_unknown(inference, m)
    &&& forall|x: Id|
        inference.contains(x) && s.status[x] == Status::Unknown && #[trigger] s.score[x].0
            == s.score[m].0 ==> m <= x
}

/// Whether the walk of selection goes from the goal `x` to the goal `m`.
pub open spec fn goes<U: Fn(usize, usize, Score) -> Score>(
    s: SearchView,
    x: Id,
    m: Id,
    uct: &U,
) -> bool {
    s.expanded(x) && exists|k: int|
        0 <= k < s.children[x].len() && #[trigger] takes(s, x, uct, k) && first_lowest(
            s,
            s.children[x][k],
            m,
        )
}

/// Whether `path` is the walk of selection from the root to `leaf`.
pub open spec fn is_walk_by<U: Fn(usize, usize, Score) -> Score>(
    s: SearchView,
    path: Seq<Id>,
    leaf: Id,
    uct: &U,
) -> bool {
    &&& path.len() >= 1
    &&& path[0] == s.root
    &&& path.last() == leaf
    &&& forall|i: int| 0 <= i < path.len() - 1 ==> goes(s, #[trigger] path[i], path[i + 1], uct)
}

/// Whether the graph `new` is what selection makes of `old` when it walks
/// to `leaf`: each goal of the walk has one more visit.
pub open spec fn selected_by<U: Fn(usize, usize, Score) -> Score>(
    old: SearchView,
    new: SearchView,
    leaf: Id,
    uct: &U,
) -> bool {
    exists|path: Seq<Id>| #[trigger] is_walk_by(old, path, leaf, uct) && new.counted(old, path)
}

/// The best of the first values does not depend on the values after them.
pub proof fn lemma_last_best_prefix(s: SearchView, x: Id, values: Seq<Score>, next: Score, n: nat)
    requires
        n <= values.len(),
    ensures
        last_best(s, x, values.push(next), n) == last_best(s, x, values, n),
        last_best(s, x, values, n) matches Some(b) ==> 0 <= b < n,
    decreases n,
{
    if n > 0 {
        lemma_last_best_prefix(s, x, values, next, (n - 1) as nat);
        assert(values.push(next)[n - 1] == values[n - 1]);
        match last_best(s, x, values, (n - 1) as nat) {
            Some(b) => {
                assert(values.push(next)[b] == values[b]);
            },
            None => {},
        }
    }
}

/// What selection looks at in an inference is the same in two graphs with
/// the same scores in which the members have the same visits.
pub proof fn lemma_survey_same(a: SearchView, b: SearchView, inference: Seq<Id>, n: nat)
    requires
        a.score == b.score,
        forall|i: int| 0 <= i < inference.len() ==> a.visits[#[trigger] inference[i]] == b.visits[inference[i]],
    ensures
        least_score(a, inference, n) == least_score(b, inference, n),
        visits_of(a, inference, n) == visits_of(b, inference, n),
    decreases n,
{
    if n > 0 && n <= inference.len() {
        lemma_survey_same(a, b, inference, (n - 1) as nat);
    }
}

/// The best of some values is the same in two graphs with the same
/// verdicts and inferences.
pub proof fn lemma_last_best_same(a: SearchView, b: SearchView, x: Id, values: Seq<Score>, n: nat)
    requires
        a.status == b.status,
        a.children == b.children,
    ensures
        last_best(a, x, values, n) == last_best(b, x, values, n),
    decreases n,
{
    if n > 0 && n <= values.len() {
        lemma_last_best_same(a, b, x, values, (n - 1) as nat);
    }
}

/// Where selection goes from a goal is the same in two graphs with the same
/// verdicts, inferences and scores in which the goal and the members of
/// its inferences have the same visits.
pub proof fn lemma_goes_same<U: Fn(usize, usize, Score) -> Score>(
    a: SearchView,
    b: SearchView,
    x: Id,
    m: Id,
    uct: &U,
)
    requires
        a.status == b.status,
        a.children == b.children,
        a.score == b.score,
        a.visits[x] == b.visits[x],
        forall|n: Id| a.edge(x, n) ==> a.visits[n] == b.visits[n],
        goes(a, x, m, uct),
    ensures
        goes(b, x, m, uct),
{
    let k = choose|k: int|
        0 <= k < a.children[x].len() && #[trigger] takes(a, x, uct, k) && first_lowest(
            a,
            a.children[x][k],
            m,
        );
    let values = choose|values: Seq<Score>|
        values.len() == a.children[x].len() && #[trigger] valued(
            a,
            x,
            uct,
            values,
            values.len() as int,
        ) && last_best(a, x, values, values.len()) == Some(k);
    lemma_last_best_same(a, b, x, values, values.len());
    assert forall|i: int| 0 <= i < values.len() && !b.blocked_at(x, i) implies uct.ensures(
        (
            b.visits[x],
            visits_of(b, b.children[x][i], b.children[x][i].len()),
            lowest_score(b, b.children[x][i]),
        ),
        #[trigger] values[i],
    ) by {
        let inference = a.children[x][i];
        assert forall|j: int| 0 <= j < inference.len() implies a.visits[#[trigger] inference[j]]
            == b.visits[inference[j]] by {
            assert(inference.contains(inference[j]));
            assert(a.edge(x, inference[j]));
        }
        lemma_survey_same(a, b, inference, inference.len());
        assert(!a.blocked_at(x, i));
    }
    assert(valued(b, x, uct, values, values.len() as int));
    assert(takes(b, x, uct, k));
    assert(first_lowest(b, b.children[x][k], m));
}

/// One more than `n`, as far as the count goes.
pub open spec fn one_more(n: usize) -> usize {
    if n < usize::MAX {
        (n + 1) as usize
    } else {
        usize::MAX
    }
}

/// A goal is above whatever the members of its inferences are above.
pub proof fn lemma_ancestor_down(s: SearchView, a: Id, x: Id, m: Id)
    requires
        a == x || ancestor(s, a, x),
        s.edge(x, m),
    ensures
        ancestor(s, a, m),
{
    if a == x {
        lemma_ancestor_step(s, x, m, m);
    } else {
        let path = choose|path: Seq<Id>| leads(s, path, a, x);
        let longer = path.push(m);
        assert(s.is_path(longer)) by {
            assert forall|i: int| 0 <= i < longer.len() - 1 implies s.edge(
                #[trigger] longer[i],
                longer[i + 1],
            ) by {
                if i < path.len() - 1 {
                    assert(s.edge(path[i], path[i + 1]));
                }
            }
        }
        assert(leads(s, longer, a, m));
    }
}

impl Search {
    /// What selection needs to know of an inference: whether a member is
    /// `Sat`, the lowest score of a member, and the visits of all members
    /// together, as far as the count goes.
    fn survey(&self, inference: &IdSet) -> (found: (bool, Score, usize))
        requires
            self@.complete(),
            forall|j: int| 0 <= j < inference@.len() ==> self@.has(inference@[j]),
        ensures
            found.0 == self@.some_sat(inference@),
            found.1 == lowest_score(self@, inference@),
            found.2 == visits_of(self@, inference@, inference@.len()),
    {
        let n = inference.len();
        let mut blocked = false;
        let mut lowest: Option<Score> = None;
        let mut visits: usize = 0;
        let mut j: usize = 0;
        while j < n
            invariant
                n == inference@.len(),
                j <= n,
                self@.complete(),
                forall|x: int| 0 <= x < inference@.len() ==> self@.has(inference@[x]),
                blocked == exists|x: int|
                    0 <= x < j && self@.status[#[trigger] inference@[x]] == Status::Sat,
                lowest == least_score(self@, inference@, j as nat),
                visits == visits_of(self@, inference@, j as nat),
            decreases n - j,
        {
            let member = inference.at(j);
            if self.node_status(member) == Status::Sat {
                blocked = true;
            }
            let score = self.node_score(member);
            lowest = match lowest {
                Some(least) => if score.less(least) {
                    Some(score)
                } else {
                    Some(least)
                },
                None => Some(score),
            };
            let more = self.node_visits(member);
            visits = if visits <= usize::MAX - more {
                visits + more
            } else {
                usize::MAX
            };
            proof {
                if exists|x: int|
                    0 <= x < j + 1 && self@.status[#[trigger] inference@[x]] == Status::Sat {
                    let x = choose|x: int|
                        0 <= x < j + 1 && self@.status[#[trigger] inference@[x]] == Status::Sat;
                    if x < j {
                        assert(blocked);
                    }
                }
            }
            j += 1;
        }
        let least = match lowest {
            Some(least) => least,
            None => Score::zero(),
        };
        (blocked, least, visits)
    }

    /// The member of `inference` that is `Unknown` and has the lowest score;
    /// of several, the first.
    fn pick(&self, inference: &IdSet) -> (member: Option<Id>)
        requires
            self@.complete(),
            inference.wf(),
            forall|j: int| 0 <= j < inference@.len() ==> self@.has(inference@[j]),
        ensures
            match member {
                Some(m) => first_lowest(self@, inference@, m),
                None => forall|j: int|
                    0 <= j < inference@.len() ==> self@.status[#[trigger] inference@[j]]
                        != Status::Unknown,
            },
    {
        let n = inference.len();
        let mut best: Option<Id> = None;
        let mut j: usize = 0;
        while j < n
            invariant
                n == inference@.len(),
                j <= n,
                self@.complete(),
                forall|x: int| 0 <= x < inference@.len() ==> self@.has(inference@[x]),
                inference.wf(),
                match best {
                    Some(m) => self@.has(m) && first_lowest(
                        self@,
                        inference@.subrange(0, j as int),
                        m,
                    ),
                    None => forall|x: int|
                        0 <= x < j ==> self@.status[#[trigger] inference@[x]] != Status::Unknown,
                },
            decreases n - j,
        {
            let member = inference.at(j);
            let ghost prefix = inference@.subrange(0, j as int);
            let ghost next = inference@.subrange(0, j + 1);
            let ghost previous = best;
            proof {
                crate::collections::lemma_prefix_contains(inference@, j as int);
                assert(next[j as int] == member);
                assert(next.contains(member));
            }
            if !self.node_status(member).is_known() {
                let better = match best {
                    Some(m) => self.node_score(member).less(self.node_score(m)),
                    None => true,
                };
                if better {
                    best = Some(member);
                }
            }
            proof {
                match best {
                    Some(m) => {
                        if m != member {
                            assert(previous == Some(m));
                            assert(prefix.contains(m));
                        }
                        assert(next.contains(m));
                        assert forall|x: Id|
                            next.contains(x) && self@.status[x] == Status::Unknown implies self@.score[m].0
                            <= #[trigger] self@.score[x].0 by {
                            if prefix.contains(x) {
                                match previous {
                                    Some(p) => {
                                        assert(self@.score[p].0 <= self@.score[x].0);
                                    },
                                    None => {
                                        let k = choose|k: int|
                                            0 <= k < prefix.len() && prefix[k] == x;
                                        assert(inference@[k] == x);
                                    },
                                }
                            }
                        }
                        assert forall|x: Id|
                            next.contains(x) && self@.status[x] == Status::Unknown
                                && #[trigger] self@.score[x].0 == self@.score[m].0 implies m
                            <= x by {
                            if prefix.contains(x) {
                                let k = choose|k: int| 0 <= k < prefix.len() && prefix[k] == x;
                                assert(inference@[k] == x);
                                if m == member {
                                    match previous {
                                        Some(p) => {
                                            assert(self@.score[p].0 <= self@.score[x].0);
                                        },
                                        None => {},
                                    }
                                } else {
                                    assert(previous == Some(m));
                                }
                            } else {
                                assert(x == member);
                                if m != member {
                                    let k = choose|k: int| 0 <= k < prefix.len() && prefix[k] == m;
                                    assert(inference@[k] < inference@[j as int]);
                                }
                            }
                        }
                    },
                    None => {},
                }
            }
            j += 1;
        }
        proof {
            assert(inference@.subrange(0, n as int) =~= inference@);
        }
        best
    }

    /// Walks from the root down to a goal that is not expanded yet, and
    /// counts a visit of every goal on the way.
    ///
    /// At each goal, of the inferences without a member that is `Sat`, the
    /// one for which `uct` gives the highest value is taken (of several, the
    /// last), where `uct` is given the visits of the goal, the visits of
    /// the members of the inference together, and the lowest score of a
    /// member. Within that inference the walk goes on to the member that is
    /// `Unknown` and has the lowest score (of several, the first).
    ///
    /// The walk always ends at such a goal. It could go no further only at
    /// a goal all of whose inferences have a member that is `Sat`, or that
    /// has no inference; by the invariant such a goal is `Sat` itself, so
    /// the walk, which starts at a root that is `Unknown` and goes on to
    /// goals that are `Unknown`, does not reach it, and `None` never comes.
    pub fn select<U: Fn(usize, usize, Score) -> Score>(&mut self, uct: &U) -> (leaf: Option<Id>)
        requires
            old(self).wf(),
            old(self)@.status[old(self)@.root] == Status::Unknown,
            forall|parent: usize, child: usize, score: Score| uct.requires((parent, child, score)),
        ensures
            final(self).wf(),
            final(self)@.same_verdicts(old(self)@),
            final(self)@.score == old(self)@.score,
            final(self)@.visited_since(old(self)@),
            match leaf {
                Some(leaf) => final(self)@.is_frontier(leaf) && final(self)@.selected(
                    old(self)@,
                    leaf,
                ) && selected_by(old(self)@, final(self)@, leaf, uct),
                None => false,
            },
    {
        let ghost start = self@;
        let ghost mut walked: Seq<Id> = Seq::empty();
        let mut current = self.root;
        proof {
            self.lemma_view();
            lemma_same_verdicts(start, start);
        }
        loop
            invariant
                self.wf(),
                start.wf(),
                start == old(self)@,
                self@.same_verdicts(start),
                self@.score == start.score,
                self@.visited_since(start),
                self@.counted(start, walked),
                walked.len() == 0 ==> current == start.root,
                walked.len() > 0 ==> walked[0] == start.root && start.walks(walked.last(), current),
                forall|i: int|
                    0 <= i < walked.len() - 1 ==> start.walks(#[trigger] walked[i], walked[i + 1]),
                walked.len() > 0 ==> goes(start, walked.last(), current, uct),
                forall|i: int|
                    0 <= i < walked.len() - 1 ==> goes(start, #[trigger] walked[i], walked[i + 1], uct),
                forall|i: int|
                    0 <= i < walked.len() ==> start.rank[#[trigger] walked[i]] > start.rank[current],
                self@.has(current),
                self@.status[current] == Status::Unknown,
                current == self@.root || ancestor(self@, self@.root, current),
                forall|parent: usize, child: usize, score: Score|
                    uct.requires((parent, child, score)),
            decreases self@.rank[current],
        {
            let ghost before = self@;
            proof {
                self.lemma_view();
                assert(!before.forced.contains(current)) by {
                    if before.forced.contains(current) {
                        assert(before.status[current].known());
                    }
                }
            }
            let step: Option<Id> = match self.node_children(current) {
                None => None,
                Some(list) => {
                    proof {
                        assert(before.status[current] == before.target(current));
                        lemma_computed(before, current);
                    }
                    let parent_visits = self.node_visits(current);
                    let n = list.len();
                    let mut chosen: Option<(usize, Score)> = None;
                    let mut i: usize = 0;
                    let ghost mut values: Seq<Score> = Seq::empty();
                    while i < n
                        invariant
                            n == list@.len(),
                            i <= n,
                            parent_visits == before.visits[current],
                            values.len() == i,
                            valued(before, current, uct, values, i as int),
                            match chosen {
                                Some((k, best)) => last_best(before, current, values, i as nat)
                                    == Some(k as int) && best == values[k as int],
                                None => last_best(before, current, values, i as nat) is None,
                            },
                            self@ == before,
                            before.wf(),
                            before.expanded(current),
                            inference_views(list@) == before.children[current],
                            forall|x: int| 0 <= x < list@.len() ==> (#[trigger] list@[x]).wf(),
                            forall|parent: usize, child: usize, score: Score|
                                uct.requires((parent, child, score)),
                            match chosen {
                                Some((k, _)) => k < i && !before.blocked_at(current, k as int),
                                None => forall|x: int|
                                    0 <= x < i ==> #[trigger] before.blocked_at(current, x),
                            },
                        decreases n - i,
                    {
                        proof {
                            let inference = before.children[current][i as int];
                            assert(inference == list@[i as int]@);
                            assert forall|j: int| 0 <= j < inference.len() implies before.has(
                                inference[j],
                            ) by {
                                assert(inference.contains(inference[j]));
                                assert(before.edge(current, inference[j]));
                            }
                        }
                        let (blocked, lowest, child_visits) = self.survey(&list[i]);
                        let ghost earlier = values;
                        proof {
                            assert(blocked == before.blocked_at(current, i as int));
                        }
                        if !blocked {
                            let value = uct(parent_visits, child_visits, lowest);
                            proof {
                                values = earlier.push(value);
                            }
                            let better = match chosen {
                                Some((_, best)) => !value.less(best),
                                None => true,
                            };
                            if better {
                                chosen = Some((i, value));
                            }
                        } else {
                            proof {
                                values = earlier.push(Score(0));
                            }
                        }
                        proof {
                            lemma_last_best_prefix(before, current, earlier, values[i as int], i as nat);
                            assert(values == earlier.push(values[i as int]));
                            assert forall|j: int|
                                0 <= j < i + 1 && !before.blocked_at(current, j) implies uct.ensures(
                                (
                                    before.visits[current],
                                    visits_of(
                                        before,
                                        before.children[current][j],
                                        before.children[current][j].len(),
                                    ),
                                    lowest_score(before, before.children[current][j]),
                                ),
                                #[trigger] values[j],
                            ) by {
                                if j < i {
                                    assert(values[j] == earlier[j]);
                                }
                            }
                            match last_best(before, current, earlier, i as nat) {
                                Some(b) => {
                                    assert(values[b] == earlier[b]);
                                },
                                None => {},
                            }
                        }
                        i += 1;
                    }
                    match chosen {
                        None => {
                            proof {
                                assert(before.computed(current) == Status::Sat || before.trivial[current]);
                            }
                            None
                        },
                        Some((k, _)) => {
                            proof {
                                let inference = before.children[current][k as int];
                                assert(inference == list@[k as int]@);
                                assert forall|j: int| 0 <= j < inference.len() implies before.has(
                                    inference[j],
                                ) by {
                                    assert(inference.contains(inference[j]));
                                    assert(before.edge(current, inference[j]));
                                }
                            }
                            let member = self.pick(&list[k]);
                            proof {
                                let inference = before.children[current][k as int];
                                if member is Some {
                                    assert(before.lowest_unknown(
                                        before.children[current][k as int],
                                        member.unwrap(),
                                    ));
                                    assert(before.walks(current, member.unwrap()));
                                    assert(takes(before, current, uct, k as int));
                                    assert(goes(before, current, member.unwrap(), uct));
                                }
                                if member is None {
                                    assert(!before.some_sat(inference));
                                    assert forall|j: int| 0 <= j < inference.len() implies before.status[
                                    #[trigger] inference[j]] == Status::Unsat by {}
                                    assert(before.refuted_at(current, k as int));
                                }
                            }
                            member
                        },
                    }
                },
            };
            self.count_visit(current);
            proof {
                let s = self@;
                let earlier = walked;
                walked = walked.push(current);
                assert(!earlier.contains(current)) by {
                    if earlier.contains(current) {
                        let i = choose|i: int| 0 <= i < earlier.len() && earlier[i] == current;
                        assert(start.rank[earlier[i]] > start.rank[current]);
                    }
                }
                assert forall|n: Id| start.has(n) implies #[trigger] s.visits[n] == if walked.contains(
                    n,
                ) {
                    one_more(start.visits[n])
                } else {
                    start.visits[n]
                } by {
                    assert(before.visits[n] == if earlier.contains(n) {
                        one_more(start.visits[n])
                    } else {
                        start.visits[n]
                    });
                    if n == current {
                        assert(walked[earlier.len() as int] == current);
                    } else {
                        if walked.contains(n) {
                            let i = choose|i: int| 0 <= i < walked.len() && walked[i] == n;
                            assert(earlier[i] == n);
                        }
                        if earlier.contains(n) {
                            let i = choose|i: int| 0 <= i < earlier.len() && earlier[i] == n;
                            assert(walked[i] == n);
                        }
                    }
                }
                assert forall|i: int| 0 <= i < walked.len() - 1 implies start.walks(
                    #[trigger] walked[i],
                    walked[i + 1],
                ) by {
                    if i < earlier.len() - 1 {
                        assert(start.walks(earlier[i], earlier[i + 1]));
                    } else {
                        assert(walked[i] == earlier.last());
                    }
                }
                assert forall|i: int| 0 <= i < walked.len() - 1 implies goes(
                    start,
                    #[trigger] walked[i],
                    walked[i + 1],
                    uct,
                ) by {
                    if i < earlier.len() - 1 {
                        assert(goes(start, earlier[i], earlier[i + 1], uct));
                    } else {
                        assert(walked[i] == earlier.last());
                    }
                }
                assert(walked[0] == start.root);
                lemma_same_verdicts(before, s);
                assert forall|n: Id| start.has(n) implies #[trigger] s.visits[n]
                    >= start.visits[n] by {
                    assert(before.visits[n] >= start.visits[n]);
                }
                assert forall|a: Id, b: Id| s.edge(a, b) == before.edge(a, b) by {}
            }
            match step {
                None => {
                    proof {
                        let s = self@;
                        assert(before.expanded(current) ==> false);
                        if current != s.root {
                            let path = choose|path: Seq<Id>|
                                leads(before, path, before.root, current);
                            assert(s.is_path(path)) by {
                                assert forall|i: int| 0 <= i < path.len() - 1 implies s.edge(
                                    #[trigger] path[i],
                                    path[i + 1],
                                ) by {
                                    assert(before.edge(path[i], path[i + 1]));
                                }
                            }
                            assert(leads(s, path, s.root, current));
                        }
                        assert(start.is_walk(walked, current));
                        assert(s.selected(start, current));
                        assert(is_walk_by(start, walked, current, uct));
                        assert(selected_by(start, s, current, uct));
                    }
                    return Some(current);
                },
                Some(next) => {
                    proof {
                        let s = self@;
                        let k = choose|k: int|
                            0 <= k < before.children[current].len() && (
                            #[trigger] before.children[current][k]).contains(next);
                        assert(before.edge(current, next));
                        assert(s.edge(current, next));
                        if current != s.root {
                            let path = choose|path: Seq<Id>|
                                leads(before, path, before.root, current);
                            assert(s.is_path(path)) by {
                                assert forall|i: int| 0 <= i < path.len() - 1 implies s.edge(
                                    #[trigger] path[i],
                                    path[i + 1],
                                ) by {
                                    assert(before.edge(path[i], path[i + 1]));
                                }
                            }
                            assert(leads(s, path, s.root, current));
                        }
                        lemma_ancestor_down(s, s.root, current, next);
                        assert(s.rank[current] > s.rank[next]);
                        assert(start.walks(current, next)) by {
                            let j = choose|j: int|
                                0 <= j < before.children[current].len() && !before.blocked_at(
                                    current,
                                    j,
                                ) && before.lowest_unknown(
                                    #[trigger] before.children[current][j],
                                    next,
                                );
                            assert(start.children[current][j] == before.children[current][j]);
                            assert(!start.blocked_at(current, j));
                            assert(start.lowest_unknown(start.children[current][j], next));
                        }
                        assert(goes(start, current, next, uct)) by {
                            assert(goes(before, current, next, uct));
                            let earlier = walked.drop_last();
                            assert(!earlier.contains(current)) by {
                                if earlier.contains(current) {
                                    let i = choose|i: int|
                                        0 <= i < earlier.len() && earlier[i] == current;
                                    assert(walked[i] == current);
                                    assert(start.rank[walked[i]] > start.rank[current]);
                                }
                            }
                            assert forall|n: Id| before.edge(current, n) implies before.visits[n]
                                == start.visits[n] by {
                                assert(start.edge(current, n));
                                assert(start.has(n));
                                assert(start.rank[current] > start.rank[n]);
                                if earlier.contains(n) {
                                    let i = choose|i: int| 0 <= i < earlier.len() && earlier[i] == n;
                                    assert(walked[i] == n);
                                    assert(start.rank[walked[i]] > start.rank[current]);
                                }
                            }
                            lemma_goes_same(before, start, current, next, uct);
                        }
                        assert forall|i: int| 0 <= i < walked.len() implies start.rank[
                        #[trigger] walked[i]] > start.rank[next] by {
                            if i < walked.len() - 1 {
                                assert(start.rank[walked[i]] > start.rank[current]);
                            }
                        }
                    }
                    current = next;
                },
            }
        }
    }
}

} // verus!
