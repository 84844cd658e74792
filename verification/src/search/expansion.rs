//! Expanding a goal: one step of the search.

use crate::collections::{Id, IdSet};
use crate::deduction::engine::{deductions, deductions_of};

use crate::score::Score;
use crate::search::ancestry::ancestor;
use crate::search::graph::{inference_views, Search};
use crate::search::growth::{
    expanded_with,
    grown,
    is_member,
    lemma_expanded,
    lineage,
    members_of,
    with_parent,
};

use crate::search::view::SearchView;
use crate::status::Status;
use crate::store::{Store, StoreView};
use vstd::prelude::*;

verus! {

broadcast use vstd::std_specs::hash::group_hash_axioms;

/// Whether a member of `inference` is one of `up`.
pub open spec fn banned(inference: Seq<Id>, up: Set<Id>) -> bool {
    exists|j: int| 0 <= j < inference.len() && up.contains(#[trigger] inference[j])
}

/// The inferences of `list` that have no member among `up`, in the order of
/// `list`.
pub open spec fn kept_of(list: Seq<Seq<Id>>, up: Set<Id>) -> Seq<Seq<Id>>
    decreases list.len(),
{
    if list.len() == 0 {
        Seq::empty()
    } else {
        let rest = kept_of(list.drop_last(), up);
        if banned(list.last(), up) {
            rest
        } else {
            rest.push(list.last())
        }
    }
}

/// Whether a formula of the store is the constant `F`.
pub open spec fn is_trivial(store: StoreView) -> spec_fn(Id) -> bool {
    |n: Id| store.formulae[n as int] is F
}

/// What is kept of a list of inferences is made of inferences of the list,
/// none of which has a member among `up`.
pub proof fn lemma_kept_of(list: Seq<Seq<Id>>, up: Set<Id>)
    ensures
        forall|i: int|
            0 <= i < kept_of(list, up).len() ==> list.contains(#[trigger] kept_of(list, up)[i])
                && !banned(kept_of(list, up)[i], up),
    decreases list.len(),
{
    if list.len() > 0 {
        let front = list.drop_last();
        lemma_kept_of(front, up);
        let rest = kept_of(front, up);
        assert forall|i: int| 0 <= i < kept_of(list, up).len() implies list.contains(
            #[trigger] kept_of(list, up)[i],
        ) && !banned(kept_of(list, up)[i], up) by {
            if i < rest.len() {
                assert(front.contains(rest[i]));
                let k = choose|k: int| 0 <= k < front.len() && front[k] == rest[i];
                assert(list[k] == rest[i]);
            } else {
                assert(list[list.len() - 1] == list.last());
            }
        }
    }
}

/// Whether `a` holds `x`.
fn holds_id(a: &Vec<Id>, x: Id) -> (found: bool)
    ensures
        found == a@.contains(x),
{
    let mut i: usize = 0;
    while i < a.len()
        invariant
            i <= a.len(),
            forall|j: int| 0 <= j < i ==> a@[j] != x,
        decreases a.len() - i,
    {
        if a[i] == x {
            return true;
        }
        i += 1;
    }
    false
}

/// Adding one more goal to a graph that has grown.
pub proof fn lemma_grown_more(
    old: SearchView,
    leaf: Id,
    members: Set<Id>,
    m: Id,
    trivial: spec_fn(Id) -> bool,
)
    requires
        old.complete(),
        old.has(leaf),
    ensures
        grown(grown(old, leaf, members, trivial), leaf, Set::empty().insert(m), trivial) == grown(
            old,
            leaf,
            members.insert(m),
            trivial,
        ),
{
    let mid = grown(old, leaf, members, trivial);
    let one = Set::<Id>::empty().insert(m);
    let a = grown(mid, leaf, one, trivial);
    let b = grown(old, leaf, members.insert(m), trivial);
    assert(a.status =~= b.status);
    assert(a.score =~= b.score);
    assert(a.visits =~= b.visits);
    assert(a.trivial =~= b.trivial);
    assert(a.rank =~= b.rank);
    assert(a.parents =~= b.parents) by {
        assert forall|n: Id| a.parents.contains_key(n) implies a.parents[n] == b.parents[n] by {
            if n == m {
                if members.contains(m) {
                    let ps = with_parent(old, m, leaf);
                    if old.has(m) && !old.parents[m].contains(leaf) {
                        assert(ps[ps.len() - 1] == leaf);
                    }
                    if !old.has(m) {
                        assert(ps[0] == leaf);
                    }
                    assert(ps.contains(leaf));
                }
            }
        }
    }
}

/// Whether every goal of the graph is a formula of the store, and is marked
/// as the goal `F` exactly if it is the formula `F`.
pub open spec fn tied(g: SearchView, store: StoreView) -> bool {
    forall|n: Id| #[trigger]
        g.has(n) ==> n < store.formulae.len() && g.trivial[n] == (store.formulae[n as int] is F)
}

impl Search {
    /// Whether every goal of the graph is a formula of the store, and is
    /// marked as the goal `F` exactly if it is the formula `F`.
    pub open spec fn within(&self, store: StoreView) -> bool {
        tied(self@, store)
    }

    /// Makes `m` a goal of the graph, if it is none yet, and `leaf` one of
    /// the goals that it was inferred from. Tells whether `m` is new.
    fn add_goal(&mut self, m: Id, trivial: bool, leaf: Id, Ghost(told): Ghost<spec_fn(Id) -> bool>) -> (fresh:
        bool)
        requires
            old(self)@.complete(),
            old(self)@.has(leaf),
            told(m) == trivial,
        ensures
            final(self)@ == grown(old(self)@, leaf, Set::empty().insert(m), told),
            fresh == !old(self)@.has(m),
    {
        proof {
            self.lemma_view();
        }
        let ghost before = self@;
        let fresh = !self.status.contains_key(&m);
        if fresh {
            let initial = if trivial {
                Status::Unsat
            } else {
                Status::Unknown
            };
            self.status.insert(m, initial);
            self.score.insert(m, Score(0));
            self.visits.insert(m, 0);
            self.trivial.insert(m, trivial);
            let mut parents: Vec<Id> = Vec::new();
            parents.push(leaf);
            self.parents.insert(m, parents);
            proof {
                self.rank = Ghost(self.rank@.insert(m, 0nat));
            }
        } else {
            proof {
                assert(before.has(m));
                assert(before.parents.contains_key(m));
                assert(self.parents@.contains_key(m));
            }
            let known = holds_id(self.parents.get(&m).unwrap(), leaf);
            if !known {
                let mut parents = self.parents.remove(&m).unwrap();
                parents.push(leaf);
                self.parents.insert(m, parents);
            }
        }
        proof {
            self.lemma_view();
            let s = self@;
            let want = grown(before, leaf, Set::empty().insert(m), told);
            assert(s.status =~= want.status);
            assert(s.score =~= want.score);
            assert(s.visits =~= want.visits);
            assert(s.trivial =~= want.trivial);
            assert(s.rank =~= want.rank);
            assert(s.children =~= want.children);
            assert(s.parents =~= want.parents) by {
                assert forall|n: Id| s.parents.contains_key(n) implies s.parents[n]
                    == want.parents[n] by {
                    if n == m && !fresh {
                        assert(s.parents[n] =~= with_parent(before, m, leaf));
                    }
                    if n == m && fresh {
                        assert(s.parents[n] =~= seq![leaf]);
                    }
                }
            }
        }
        fresh
    }
}

/// The goal `leaf` and the goals `above`.
pub open spec fn up_set(above: Seq<Id>, leaf: Id) -> Set<Id> {
    Set::new(|n: Id| n == leaf || above.contains(n))
}

/// The inferences of `deduced` that have no member among `leaf` and the
/// goals `above`.
fn keep(deduced: Vec<IdSet>, above: &Vec<Id>, leaf: Id) -> (kept: Vec<IdSet>)
    requires
        forall|i: int| 0 <= i < deduced@.len() ==> (#[trigger] deduced@[i]).wf(),
    ensures
        forall|i: int| 0 <= i < kept@.len() ==> (#[trigger] kept@[i]).wf(),
        inference_views(kept@) == kept_of(inference_views(deduced@), up_set(above@, leaf)),
{
    let ghost up = up_set(above@, leaf);
    let ghost all = inference_views(deduced@);
    let mut kept: Vec<IdSet> = Vec::new();
    let n = deduced.len();
    let mut i: usize = 0;
    proof {
        assert(all.subrange(0, 0) =~= Seq::<Seq<Id>>::empty());
        assert(inference_views(kept@) =~= Seq::<Seq<Id>>::empty());
    }
    while i < n
        invariant
            n == deduced@.len(),
            i <= n,
            all == inference_views(deduced@),
            up == up_set(above@, leaf),
            forall|x: int| 0 <= x < deduced@.len() ==> (#[trigger] deduced@[x]).wf(),
            forall|x: int| 0 <= x < kept@.len() ==> (#[trigger] kept@[x]).wf(),
            inference_views(kept@) == kept_of(all.subrange(0, i as int), up),
        decreases n - i,
    {
        let inference = &deduced[i];
        let m = inference.len();
        let mut j: usize = 0;
        let mut found = false;
        while j < m
            invariant
                m == inference@.len(),
                j <= m,
                up == up_set(above@, leaf),
                found ==> banned(inference@, up),
                !found ==> forall|x: int| 0 <= x < j ==> !up.contains(#[trigger] inference@[x]),
            decreases m - j,
        {
            let member = inference.at(j);
            if member == leaf || holds_id(above, member) {
                found = true;
                proof {
                    assert(up.contains(inference@[j as int]));
                }
            }
            j += 1;
        }
        let ghost before = inference_views(kept@);
        proof {
            assert(all.subrange(0, i + 1).drop_last() =~= all.subrange(0, i as int));
            assert(all.subrange(0, i + 1).last() == inference@);
            if !found {
                assert(!banned(inference@, up));
            }
        }
        if !found {
            kept.push(inference.clone());
            proof {
                assert(inference_views(kept@) =~= before.push(inference@));
            }
        }
        i += 1;
    }
    proof {
        assert(all.subrange(0, n as int) =~= all);
    }
    kept
}

/// A graph that has grown by finitely many goals is complete.
pub proof fn lemma_grown_complete(
    old: SearchView,
    leaf: Id,
    members: Set<Id>,
    trivial: spec_fn(Id) -> bool,
)
    requires
        old.complete(),
        old.has(leaf),
        members.finite(),
    ensures
        grown(old, leaf, members, trivial).complete(),
        grown(old, leaf, members, trivial).has(leaf),
{
    let new = grown(old, leaf, members, trivial);
    assert(new.status.dom() =~= old.status.dom().union(members));
    vstd::set::axiom_set_union_finite(old.status.dom(), members);
    assert(forall|n: Id| new.has(n) <==> (old.has(n) || members.contains(n)));
    assert(forall|n: Id| new.has(n) <==> new.score.contains_key(n));
    assert(forall|n: Id| new.has(n) <==> new.visits.contains_key(n));
    assert(forall|n: Id| new.has(n) <==> new.trivial.contains_key(n));
    assert(forall|n: Id| new.has(n) <==> new.parents.contains_key(n));
    assert(forall|n: Id| new.has(n) <==> new.rank.contains_key(n));
    assert(forall|n: Id| new.expanded(n) ==> new.has(n));
    assert(forall|n: Id| new.forced.contains(n) ==> new.has(n));
}

/// Whether `done` holds the members of the first `i` of the inferences
/// `kept`, and the first `j` members of the next.
pub open spec fn members_upto(kept: Seq<Seq<Id>>, i: int, j: int, done: Set<Id>) -> bool {
    forall|m: Id|
        done.contains(m) <==> (is_member(kept.subrange(0, i), m) || (i < kept.len() && kept[i].subrange(
            0,
            j,
        ).contains(m)))
}

/// Whether `fresh` holds, each once, the goals of `done` that `old` lacks.
pub open spec fn fresh_of(old: SearchView, done: Set<Id>, fresh: Seq<Id>) -> bool {
    &&& fresh.no_duplicates()
    &&& forall|m: Id| fresh.contains(m) <==> (done.contains(m) && !old.has(m))
}

impl Search {
    /// Makes the members of the inferences `kept` goals of the graph, where
    /// they are none yet, each with `leaf` among the goals that it was
    /// inferred from. Gives back the goals that are new.
    fn add_members(&mut self, store: &Store, kept: &Vec<IdSet>, leaf: Id) -> (fresh: Vec<Id>)
        requires
            old(self)@.complete(),
            old(self)@.has(leaf),
            forall|i: int, j: int|
                0 <= i < kept@.len() && 0 <= j < kept@[i]@.len() ==> (#[trigger] kept@[i]@[j])
                    < store@.formulae.len(),
        ensures
            members_of(inference_views(kept@)).finite(),
            final(self)@ == grown(
                old(self)@,
                leaf,
                members_of(inference_views(kept@)),
                is_trivial(store@),
            ),
            fresh_of(old(self)@, members_of(inference_views(kept@)), fresh@),
    {
        let ghost before = self@;
        let ghost told = is_trivial(store@);
        let ghost lists = inference_views(kept@);
        let ghost mut done: Set<Id> = Set::empty();
        let mut fresh: Vec<Id> = Vec::new();
        let n = kept.len();
        let mut i: usize = 0;
        proof {
            let start = grown(before, leaf, done, told);
            assert(start.status =~= before.status);
            assert(start.score =~= before.score);
            assert(start.visits =~= before.visits);
            assert(start.trivial =~= before.trivial);
            assert(start.rank =~= before.rank);
            assert(start.parents =~= before.parents);
            assert(lists.subrange(0, 0) =~= Seq::<Seq<Id>>::empty());
            assert forall|m: Id|
                done.contains(m) <==> (is_member(lists.subrange(0, 0), m) || (0 < lists.len()
                    && lists[0].subrange(0, 0).contains(m))) by {
                if 0 < lists.len() {
                    assert(lists[0].subrange(0, 0) =~= Seq::<Id>::empty());
                }
            }
        }
        while i < n
            invariant
                n == kept@.len(),
                i <= n,
                lists == inference_views(kept@),
                before == old(self)@,
                before.complete(),
                before.has(leaf),
                told == is_trivial(store@),
                forall|a: int, b: int|
                    0 <= a < kept@.len() && 0 <= b < kept@[a]@.len() ==> (#[trigger] kept@[a]@[b])
                        < store@.formulae.len(),
                done.finite(),
                members_upto(lists, i as int, 0, done),
                self@ == grown(before, leaf, done, told),
                fresh_of(before, done, fresh@),
            decreases n - i,
        {
            let inference = &kept[i];
            let m = inference.len();
            let mut j: usize = 0;
            while j < m
                invariant
                    m == inference@.len(),
                    inference@ == lists[i as int],
                    j <= m,
                    i < n,
                    n == kept@.len(),
                    lists == inference_views(kept@),
                    before.complete(),
                    before.has(leaf),
                    told == is_trivial(store@),
                    forall|b: int| 0 <= b < inference@.len() ==> inference@[b] < store@.formulae.len(),
                    done.finite(),
                    members_upto(lists, i as int, j as int, done),
                    self@ == grown(before, leaf, done, told),
                    fresh_of(before, done, fresh@),
                decreases m - j,
            {
                let member = inference.at(j);
                let ghost sofar = done;
                let ghost listed = fresh@;
                proof {
                    lemma_grown_complete(before, leaf, done, told);
                    lemma_grown_more(before, leaf, done, member, told);
                    crate::collections::lemma_prefix_contains(inference@, j as int);
                }
                let trivial = store.formula(member).is_false();
                let is_new = self.add_goal(member, trivial, leaf, Ghost(told));
                if is_new {
                    fresh.push(member);
                }
                proof {
                    done = sofar.insert(member);
                    vstd::set::axiom_set_insert_finite(sofar, member);
                    assert forall|x: Id|
                        done.contains(x) <==> (is_member(lists.subrange(0, i as int), x) || (i
                            < lists.len() && lists[i as int].subrange(0, j + 1).contains(x))) by {}
                    crate::collections::lemma_push_contains(listed, member);
                    assert(grown(before, leaf, sofar, told).has(member) == (before.has(member)
                        || sofar.contains(member)));
                    if is_new {
                        assert(fresh@.no_duplicates()) by {
                            assert forall|a: int, b: int|
                                0 <= a < fresh@.len() && 0 <= b < fresh@.len() && a
                                != b implies fresh@[a] != fresh@[b] by {
                                if a < listed.len() && b < listed.len() {
                                    assert(listed[a] != listed[b]);
                                } else if a < listed.len() {
                                    assert(listed.contains(listed[a]));
                                } else {
                                    assert(listed.contains(listed[b]));
                                }
                            }
                        }
                    }
                    assert forall|x: Id| fresh@.contains(x) <==> (done.contains(x) && !before.has(
                        x,
                    )) by {}
                }
                j += 1;
            }
            proof {
                assert(lists[i as int].subrange(0, m as int) =~= lists[i as int]);
                assert forall|x: Id|
                    done.contains(x) <==> (is_member(lists.subrange(0, i + 1), x) || (i + 1
                        < lists.len() && lists[i + 1].subrange(0, 0).contains(x))) by {
                    if i + 1 < lists.len() {
                        assert(lists[i + 1].subrange(0, 0) =~= Seq::<Id>::empty());
                    }
                    let shorter = lists.subrange(0, i as int);
                    let longer = lists.subrange(0, i + 1);
                    if is_member(shorter, x) {
                        let k = choose|k: int|
                            0 <= k < shorter.len() && (#[trigger] shorter[k]).contains(x);
                        assert(longer[k].contains(x));
                    }
                    if lists[i as int].contains(x) {
                        assert(longer[i as int].contains(x));
                    }
                    if is_member(longer, x) {
                        let k = choose|k: int|
                            0 <= k < longer.len() && (#[trigger] longer[k]).contains(x);
                        if k < i {
                            assert(shorter[k].contains(x));
                        }
                    }
                }
            }
            i += 1;
        }
        proof {
            assert(lists.subrange(0, n as int) =~= lists);
            assert(done =~= members_of(lists));
        }
        fresh
    }
}

/// Whether the graph `new` is what one step of the search makes of the
/// graph `old`: the goal `leaf` at the frontier of `old` is expanded with
/// those of its deductions `list` that have no member among the goal and the
/// goals above it, and `fresh` are the goals that are new. Each member of
/// these inferences has `leaf` among the goals that it was inferred from,
/// once. The goal `leaf` is reached by a walk of selection, and each goal
/// of the walk has one more visit; no other goal of `old` has, and no
/// score of a goal of `old` changes. No goal is marked as decided from
/// outside that was not.
pub open spec fn stepped(
    before: StoreView,
    after: StoreView,
    old: SearchView,
    new: SearchView,
    leaf: Id,
    list: Seq<Seq<Id>>,
    fresh: Seq<Id>,
) -> bool {
    &&& old.is_frontier(leaf)
    &&& deductions_of(before, after, leaf, list)
    &&& new.children == old.children.insert(leaf, kept_of(list, lineage(old, leaf)))
    &&& forall|n: Id| new.has(n) <==> (old.has(n) || is_member(kept_of(list, lineage(old, leaf)), n))
    &&& fresh_of(old, members_of(kept_of(list, lineage(old, leaf))), fresh)
    &&& new.forced == old.forced
    &&& new.selected(old, leaf)
    &&& forall|n: Id| old.has(n) ==> #[trigger] new.score[n] == old.score[n]
    &&& forall|n: Id| new.has(n) && !old.has(n) ==> is_new(after, new, n)
    &&& forall|n: Id| #[trigger]
        is_member(kept_of(list, lineage(old, leaf)), n) ==> new.parents[n] == with_parent(
            old,
            n,
            leaf,
        )
}

/// Whether the goal `n` is as a goal is when it is new: its score is zero,
/// it was not visited, and it is marked as the goal `F` exactly if it is
/// the formula `F`.
pub open spec fn is_new(store: StoreView, new: SearchView, n: Id) -> bool {
    &&& new.score[n] == Score(0)
    &&& new.visits[n] == 0
    &&& new.trivial[n] == (store.formulae[n as int] is F)
}

/// Whether the graph `new` is what one step of the search makes of the
/// graph `old`, with `fresh` the goals that are new.
pub open spec fn made_step(
    before: StoreView,
    after: StoreView,
    old: SearchView,
    new: SearchView,
    fresh: Seq<Id>,
) -> bool {
    exists|leaf: Id, list: Seq<Seq<Id>>| stepped(before, after, old, new, leaf, list, fresh)
}

/// Whether the graph `new` is what one step of the search makes of the
/// graph `old`, with `fresh` the goals that are new, where the goal that is
/// expanded is the one that selection with `uct` walks to.
pub open spec fn made_step_by<U: Fn(usize, usize, Score) -> Score>(
    before: StoreView,
    after: StoreView,
    old: SearchView,
    new: SearchView,
    fresh: Seq<Id>,
    uct: &U,
) -> bool {
    exists|leaf: Id, list: Seq<Seq<Id>>| #[trigger]
        stepped(before, after, old, new, leaf, list, fresh) && crate::search::selection::selected_by(
            old,
            new,
            leaf,
            uct,
        )
}

impl Search {
    /// One step of the search: a goal at the frontier is chosen as `select`
    /// chooses it, and expanded. Gives back the goals that are new.
    ///
    /// The inferences of the goal are its deductions, but for those with a
    /// member that is the goal itself or a goal above it. The members of the
    /// inferences that are kept become goals of the graph where they are
    /// none yet. Then every goal gets the verdict that its inferences give.
    /// No final verdict changes.
    ///
    /// A step is always made. The search has nothing left to choose only at
    /// a goal all of whose inferences have a member that is `Sat`, or that
    /// has no inference; by the invariant such a goal is `Sat` itself, so
    /// it is not reached from a root that is `Unknown`, and `None` never
    /// comes.
    pub fn do_step<U: Fn(usize, usize, Score) -> Score>(&mut self, store: &mut Store, uct: &U) -> (fresh:
        Option<Vec<Id>>)
        requires
            old(self).wf(),
            old(store).wf(),
            old(self).within(old(store)@),
            old(self)@.status[old(self)@.root] == Status::Unknown,
            forall|parent: usize, child: usize, score: Score| uct.requires((parent, child, score)),
        ensures
            final(self).wf(),
            final(store).wf(),
            final(store)@.extends(old(store)@),
            final(self).within(final(store)@),
            final(self)@.keeps_verdicts(old(self)@),
            final(self)@.root == old(self)@.root,
            match fresh {
                Some(fresh) => made_step(
                    old(store)@,
                    final(store)@,
                    old(self)@,
                    final(self)@,
                    fresh@,
                ) && made_step_by(
                    old(store)@,
                    final(store)@,
                    old(self)@,
                    final(self)@,
                    fresh@,
                    uct,
                ),
                None => false,
            },
    {
        let ghost s0 = self@;
        let ghost store0 = store@;
        let leaf = match self.select(uct) {
            Some(leaf) => leaf,
            None => {
                return None;
            },
        };
        let ghost s1 = self@;
        let above = self.ancestors_of(leaf);
        let deduced = deductions(store, leaf);
        let ghost list = deduced@;
        let ghost store1 = store@;
        proof {
            deduced.lemma_wf();
        }
        let all = deduced.into_vec();
        proof {
            assert(inference_views(all@) =~= list);
        }
        let kept = keep(all, &above, leaf);
        let ghost lists = inference_views(kept@);
        let ghost up = lineage(s1, leaf);
        proof {
            assert(up_set(above@, leaf) =~= up);
            lemma_kept_of(list, up);
            assert forall|i: int, j: int|
                0 <= i < kept@.len() && 0 <= j < kept@[i]@.len() implies (#[trigger] kept@[i]@[j])
                < store1.formulae.len() by {
                assert(lists[i] == kept@[i]@);
                assert(list.contains(lists[i]));
                let k = choose|k: int| 0 <= k < list.len() && list[k] == lists[i];
                assert(list[k][j] < store1.formulae.len());
            }
            assert forall|m: Id| is_member(lists, m) implies !up.contains(m) by {
                let i = choose|i: int| 0 <= i < lists.len() && (#[trigger] lists[i]).contains(m);
                let j = choose|j: int| 0 <= j < lists[i].len() && lists[i][j] == m;
                assert(!banned(lists[i], up));
            }
            assert forall|i: int| 0 <= i < lists.len() implies crate::collections::ascending(
                #[trigger] lists[i],
            ) by {
                assert(kept@[i].wf());
            }
        }
        let fresh = self.add_members(store, &kept, leaf);
        let ghost s2 = self@;
        proof {
            self.lemma_view();
        }
        self.children.insert(leaf, kept);
        proof {
            let bound = self.bound@;
            let ranks = self.rank@;
            self.rank = Ghost(
                Map::new(
                    |n: Id| ranks.contains_key(n),
                    |n: Id|
                        if up.contains(n) {
                            ranks[n] + bound + 1
                        } else {
                            ranks[n]
                        },
                ),
            );
            self.bound = Ghost(2 * bound + 1);
            self.lemma_view();
            let s3 = self@;
            let want = expanded_with(s1, s2, leaf, lists);
            assert(s3.children =~= want.children);
            assert(s3.parents =~= want.parents);
            assert(s3.rank =~= want.rank);
            assert(s3 == want);
            lemma_expanded(s1, leaf, lists, is_trivial(store1));
        }
        let ghost s3 = self@;
        let mut queue: Vec<Id> = Vec::new();
        queue.push(leaf);
        proof {
            assert(queue@ =~= seq![leaf]);
        }
        self.propagate_status(queue);
        proof {
            let s4 = self@;
            assert forall|n: Id| #[trigger] s4.has(n) implies n < store1.formulae.len()
                && s4.trivial[n] == (store1.formulae[n as int] is F) by {
                assert(s3.status.dom().contains(n));
                assert(s4.trivial[n] == s2.trivial[n]);
                if !s1.has(n) {
                    assert(is_member(lists, n));
                    let i = choose|i: int| 0 <= i < lists.len() && (#[trigger] lists[i]).contains(n);
                    let j = choose|j: int| 0 <= j < lists[i].len() && lists[i][j] == n;
                    assert(kept@[i]@[j] < store1.formulae.len());
                } else {
                    assert(s0.has(n));
                    assert(old(self)@.has(n));
                    assert(n < store0.formulae.len());
                    assert(s2.trivial[n] == s0.trivial[n]);
                    assert(store1.formulae[n as int] == store0.formulae[n as int]);
                }
            }
            assert forall|n: Id| s0.has(n) && s0.status[n].known() implies s4.has(n)
                && #[trigger] s4.status[n] == s0.status[n] by {
                assert(s1.status[n] == s0.status[n]);
                assert(s3.status[n] == s1.status[n]);
                assert(s3.has(n));
                assert(s4.status.dom().contains(n));
            }
            assert forall|a: Id, b: Id| s1.edge(a, b) == s0.edge(a, b) by {}
            assert(s0.is_frontier(leaf)) by {
                if leaf != s0.root {
                    let path = choose|path: Seq<Id>|
                        crate::search::ancestry::leads(s1, path, s1.root, leaf);
                    assert(s0.is_path(path)) by {
                        assert forall|i: int| 0 <= i < path.len() - 1 implies s0.edge(
                            #[trigger] path[i],
                            path[i + 1],
                        ) by {
                            assert(s1.edge(path[i], path[i + 1]));
                        }
                    }
                    assert(crate::search::ancestry::leads(s0, path, s0.root, leaf));
                }
            }
            assert(lineage(s0, leaf) =~= up) by {
                assert forall|n: Id| ancestor(s0, n, leaf) == ancestor(s1, n, leaf) by {
                    if ancestor(s0, n, leaf) {
                        let path = choose|path: Seq<Id>|
                            crate::search::ancestry::leads(s0, path, n, leaf);
                        assert(s1.is_path(path)) by {
                            assert forall|i: int| 0 <= i < path.len() - 1 implies s1.edge(
                                #[trigger] path[i],
                                path[i + 1],
                            ) by {
                                assert(s0.edge(path[i], path[i + 1]));
                            }
                        }
                        assert(crate::search::ancestry::leads(s1, path, n, leaf));
                    }
                    if ancestor(s1, n, leaf) {
                        let path = choose|path: Seq<Id>|
                            crate::search::ancestry::leads(s1, path, n, leaf);
                        assert(s0.is_path(path)) by {
                            assert forall|i: int| 0 <= i < path.len() - 1 implies s0.edge(
                                #[trigger] path[i],
                                path[i + 1],
                            ) by {
                                assert(s1.edge(path[i], path[i + 1]));
                            }
                        }
                        assert(crate::search::ancestry::leads(s0, path, n, leaf));
                    }
                }
            }
            assert(forall|n: Id| s4.has(n) <==> (s0.has(n) || is_member(lists, n))) by {
                assert forall|n: Id| s4.has(n) <==> (s0.has(n) || is_member(lists, n)) by {
                    assert(s4.status.dom().contains(n) == s3.status.dom().contains(n));
                }
            }
            assert(fresh_of(s0, members_of(lists), fresh@)) by {
                assert forall|m: Id|
                    fresh@.contains(m) <==> (members_of(lists).contains(m) && !s0.has(m)) by {}
            }
            assert(s4.forced == s0.forced);
            assert(s1.selected(s0, leaf));
            let walk = choose|path: Seq<Id>| #[trigger] s0.is_walk(path, leaf) && s1.counted(s0, path);
            assert forall|n: Id| s0.has(n) implies #[trigger] s4.visits[n] == if walk.contains(n) {
                crate::search::selection::one_more(s0.visits[n])
            } else {
                s0.visits[n]
            } by {
                assert(s1.has(n));
                assert(s2.visits[n] == s1.visits[n]);
            }
            assert(s4.counted(s0, walk));
            assert(s4.selected(s0, leaf));
            assert forall|n: Id| s0.has(n) implies #[trigger] s4.score[n] == s0.score[n] by {
                assert(s1.has(n));
                assert(s2.score[n] == s1.score[n]);
            }
            assert forall|n: Id| s4.has(n) && !s0.has(n) implies is_new(store1, s4, n) by {
                assert(!s1.has(n));
                assert(s2.has(n));
            }
            assert forall|n: Id| #[trigger] is_member(lists, n) implies s4.parents[n]
                == with_parent(s0, n, leaf) by {
                assert(members_of(lists).contains(n));
                assert(s1.has(n) == s0.has(n));
            }
            assert(stepped(store0, store1, s0, s4, leaf, list, fresh@));
            assert(made_step(store0, store1, s0, s4, fresh@));
            assert(crate::search::selection::selected_by(s0, s1, leaf, uct));
            let way = choose|path: Seq<Id>| #[trigger]
                crate::search::selection::is_walk_by(s0, path, leaf, uct) && s1.counted(s0, path);
            assert forall|n: Id| s0.has(n) implies #[trigger] s4.visits[n] == if way.contains(n) {
                crate::search::selection::one_more(s0.visits[n])
            } else {
                s0.visits[n]
            } by {
                assert(s1.has(n));
                assert(s2.visits[n] == s1.visits[n]);
            }
            assert(s4.counted(s0, way));
            assert(crate::search::selection::selected_by(s0, s4, leaf, uct));
            assert(made_step_by(store0, store1, s0, s4, fresh@, uct));
        }
        Some(fresh)
    }
}

} // verus!
