//! What the search graph holds, and what makes it sound.

use crate::collections::{ascending, Id};
use crate::score::Score;
use crate::status::{lemma_product_of, lemma_sum_of, Status};
use vstd::prelude::*;

verus! {

/// The search graph: the goals met so far, each with its verdict, its
/// score, the number of times it was visited, the goals it was inferred
/// from and, once it is expanded, its inferences.
pub struct SearchView {
    pub root: Id,
    pub status: Map<Id, Status>,
    pub score: Map<Id, Score>,
    pub visits: Map<Id, usize>,
    pub trivial: Map<Id, bool>,
    pub parents: Map<Id, Seq<Id>>,
    pub children: Map<Id, Seq<Seq<Id>>>,
    pub rank: Map<Id, nat>,
    pub bound: nat,
    pub forced: Set<Id>,
}

impl SearchView {
    /// Whether `n` is a goal of the graph.
    pub open spec fn has(self, n: Id) -> bool {
        self.status.contains_key(n)
    }

    /// Whether `n` has been expanded.
    pub open spec fn expanded(self, n: Id) -> bool {
        self.children.contains_key(n)
    }

    /// Whether `m` is a member of an inference of `n`.
    pub open spec fn edge(self, n: Id, m: Id) -> bool {
        self.expanded(n) && exists|i: int|
            0 <= i < self.children[n].len() && (#[trigger] self.children[n][i]).contains(m)
    }

    /// The verdicts on the members of an inference.
    pub open spec fn statuses(self, inference: Seq<Id>) -> Seq<Status> {
        Seq::new(inference.len(), |j: int| self.status[inference[j]])
    }

    /// The verdict on an inference: the product of the verdicts on its
    /// members.
    pub open spec fn product(self, inference: Seq<Id>) -> Status {
        Status::product_of(self.statuses(inference))
    }

    /// The verdicts on the inferences of `n`.
    pub open spec fn products(self, n: Id) -> Seq<Status> {
        Seq::new(self.children[n].len(), |i: int| self.product(self.children[n][i]))
    }

    /// The verdict on `n` that its inferences give: `Unsat` for the goal
    /// `F`, else the sum of the verdicts on its inferences.
    pub open spec fn computed(self, n: Id) -> Status {
        if self.trivial[n] {
            Status::Unsat
        } else {
            Status::sum_of(self.products(n))
        }
    }

    /// The verdict that a goal has before anything is known of it.
    pub open spec fn initial(self, n: Id) -> Status {
        if self.trivial[n] {
            Status::Unsat
        } else {
            Status::Unknown
        }
    }

    /// Whether every goal has every kind of entry.
    pub open spec fn complete(self) -> bool {
        &&& forall|n: Id| self.has(n) <==> self.score.contains_key(n)
        &&& forall|n: Id| self.has(n) <==> self.visits.contains_key(n)
        &&& forall|n: Id| self.has(n) <==> self.trivial.contains_key(n)
        &&& forall|n: Id| self.has(n) <==> self.parents.contains_key(n)
        &&& forall|n: Id| self.has(n) <==> self.rank.contains_key(n)
        &&& forall|n: Id| self.expanded(n) ==> self.has(n)
        &&& forall|n: Id| self.forced.contains(n) ==> self.has(n)
        &&& self.status.dom().finite()
    }

    /// Whether the goals that a goal was inferred from are those that have
    /// it as a member of an inference, and inferences are sets.
    pub open spec fn linked(self) -> bool {
        &&& forall|n: Id, m: Id| #[trigger] self.edge(n, m) ==> self.has(m) && self.parents[m].contains(n)
        &&& forall|m: Id, p: Id|
            self.has(m) && #[trigger] self.parents[m].contains(p) ==> self.edge(p, m)
        &&& forall|n: Id, i: int|
            self.expanded(n) && 0 <= i < self.children[n].len() ==> ascending(
                #[trigger] self.children[n][i],
            )
    }

    /// Whether every goal ranks above the members of its inferences, and
    /// no goal ranks above the bound that is kept for new ranks.
    pub open spec fn ranked(self) -> bool {
        &&& forall|n: Id, m: Id| #[trigger] self.edge(n, m) ==> self.rank[n] > self.rank[m]
        &&& forall|n: Id| self.has(n) ==> #[trigger] self.rank[n] <= self.bound
    }

    /// Whether the verdict on every goal that was not decided from outside
    /// is the one that its inferences give, or, before it is expanded, its
    /// initial one.
    pub open spec fn coherent(self) -> bool {
        forall|n: Id|
            self.has(n) && !self.forced.contains(n) ==> #[trigger] self.status[n] == (
            if self.expanded(n) {
                self.computed(n)
            } else {
                self.initial(n)
            })
    }

    /// Whether every goal that was decided from outside has a final
    /// verdict.
    pub open spec fn decided(self) -> bool {
        forall|n: Id| #[trigger] self.forced.contains(n) ==> self.status[n].known()
    }

    /// What the invariant says of the shape of the graph, whatever the
    /// verdicts are.
    pub open spec fn shaped(self) -> bool {
        &&& self.has(self.root)
        &&& self.complete()
        &&& self.linked()
        &&& self.ranked()
        &&& self.decided()
    }

    /// The invariant of the search graph.
    pub open spec fn wf(self) -> bool {
        self.shaped() && self.coherent()
    }

    /// The verdict that a goal must have unless it was decided from outside.
    pub open spec fn target(self, n: Id) -> Status {
        if self.expanded(n) {
            self.computed(n)
        } else {
            self.initial(n)
        }
    }

    /// Whether every goal that was not decided from outside has the verdict
    /// that it must have, but for goals of `queue` that are still `Unknown`.
    pub open spec fn pending(self, queue: Seq<Id>) -> bool {
        forall|n: Id|
            self.has(n) && !self.forced.contains(n) ==> #[trigger] self.status[n] == self.target(n)
                || (self.status[n] == Status::Unknown && self.expanded(n) && queue.contains(n))
    }

    /// The goals whose verdict is `Unknown`.
    pub open spec fn unknown(self) -> Set<Id> {
        Set::new(|n: Id| self.has(n) && self.status[n] == Status::Unknown)
    }

    /// Whether this graph differs from `old` in verdicts alone, and in the
    /// goals decided from outside.
    pub open spec fn same_shape(self, old: SearchView) -> bool {
        &&& self.root == old.root
        &&& self.score == old.score
        &&& self.visits == old.visits
        &&& self.trivial == old.trivial
        &&& self.parents == old.parents
        &&& self.children == old.children
        &&& self.rank == old.rank
        &&& self.bound == old.bound
        &&& self.status.dom() == old.status.dom()
    }

    /// Whether the verdicts of this graph are those of `old`, but that goals
    /// that were `Unknown` may have a final verdict.
    pub open spec fn refines(self, old: SearchView) -> bool {
        forall|n: Id|
            old.has(n) && old.status[n].known() ==> #[trigger] self.status[n] == old.status[n]
    }

    /// Whether all the members of an inference are `Unsat`.
    pub open spec fn all_unsat(self, inference: Seq<Id>) -> bool {
        forall|j: int|
            0 <= j < inference.len() ==> self.status[#[trigger] inference[j]] == Status::Unsat
    }

    /// Whether a member of an inference is `Sat`.
    pub open spec fn some_sat(self, inference: Seq<Id>) -> bool {
        exists|j: int| 0 <= j < inference.len() && self.status[#[trigger] inference[j]] == Status::Sat
    }

    /// Whether the inference of `n` at position `i` refutes `n`: all its
    /// members are `Unsat`.
    pub open spec fn refuted_at(self, n: Id, i: int) -> bool {
        0 <= i < self.children[n].len() && self.all_unsat(self.children[n][i])
    }

    /// Whether the inference of `n` at position `i` cannot refute `n`: one
    /// of its members is `Sat`.
    pub open spec fn blocked_at(self, n: Id, i: int) -> bool {
        0 <= i < self.children[n].len() && self.some_sat(self.children[n][i])
    }

    /// Whether each goal of `path` but the last has the next one as a
    /// member of one of its inferences.
    pub open spec fn is_path(self, path: Seq<Id>) -> bool {
        forall|i: int| 0 <= i < path.len() - 1 ==> self.edge(#[trigger] path[i], path[i + 1])
    }

    /// Whether no verdict that was final in `old` has changed.
    pub open spec fn keeps_verdicts(self, old: SearchView) -> bool {
        forall|n: Id|
            old.has(n) && old.status[n].known() ==> self.has(n) && #[trigger] self.status[n]
                == old.status[n]
    }
}

/// No goal is among its own descendants: a path of inferences never comes
/// back to where it began.
pub proof fn lemma_acyclic(s: SearchView, path: Seq<Id>)
    requires
        s.ranked(),
        s.is_path(path),
        path.len() >= 2,
    ensures
        path.first() != path.last(),
        s.rank[path.first()] > s.rank[path.last()],
    decreases path.len(),
{
    if path.len() == 2 {
        assert(s.edge(path[0], path[1]));
    } else {
        let shorter = path.drop_last();
        assert forall|i: int| 0 <= i < shorter.len() - 1 implies s.edge(
            #[trigger] shorter[i],
            shorter[i + 1],
        ) by {
            assert(s.edge(path[i], path[i + 1]));
        }
        lemma_acyclic(s, shorter);
        let k = path.len() - 2;
        assert(s.edge(path[k], path[k + 1]));
    }
}

/// The product of the verdicts on an inference is `Unsat` exactly if all
/// its members are, and `Sat` exactly if one of them is.
pub proof fn lemma_product(s: SearchView, inference: Seq<Id>)
    ensures
        s.product(inference) == Status::Unsat <==> s.all_unsat(inference),
        s.product(inference) == Status::Sat <==> s.some_sat(inference),
{
    let statuses = s.statuses(inference);
    lemma_product_of(statuses);
    if s.all_unsat(inference) {
        assert forall|j: int| 0 <= j < statuses.len() implies statuses[j] == Status::Unsat by {
            assert(s.status[inference[j]] == Status::Unsat);
        }
    }
    if s.product(inference) == Status::Unsat {
        assert forall|j: int| 0 <= j < inference.len() implies s.status[#[trigger] inference[j]]
            == Status::Unsat by {
            assert(statuses[j] == Status::Unsat);
        }
    }
    if s.some_sat(inference) {
        let j = choose|j: int|
            0 <= j < inference.len() && s.status[#[trigger] inference[j]] == Status::Sat;
        assert(statuses[j] == Status::Sat);
    }
    if s.product(inference) == Status::Sat {
        let j = choose|j: int| 0 <= j < statuses.len() && statuses[j] == Status::Sat;
        assert(s.status[inference[j]] == Status::Sat);
    }
}

/// The verdict that the inferences of a goal give is `Unsat` exactly if the
/// goal is `F` or one of its inferences refutes it, and `Sat` exactly if it
/// is not `F` and every one of its inferences is blocked.
pub proof fn lemma_computed(s: SearchView, n: Id)
    ensures
        s.computed(n) == Status::Unsat <==> (s.trivial[n] || exists|i: int| #[trigger]
            s.refuted_at(n, i)),
        s.computed(n) == Status::Sat <==> (!s.trivial[n] && forall|i: int|
            0 <= i < s.children[n].len() ==> #[trigger] s.blocked_at(n, i)),
{
    let products = s.products(n);
    lemma_sum_of(products);
    assert forall|i: int| 0 <= i < s.children[n].len() implies (products[i] == Status::Unsat
        <==> s.refuted_at(n, i)) && (products[i] == Status::Sat <==> s.blocked_at(n, i)) by {
        lemma_product(s, s.children[n][i]);
    }
    if !s.trivial[n] {
        if exists|i: int| #[trigger] s.refuted_at(n, i) {
            let i = choose|i: int| #[trigger] s.refuted_at(n, i);
            assert(products[i] == Status::Unsat);
        }
        if s.computed(n) == Status::Unsat {
            let i = choose|i: int| 0 <= i < products.len() && products[i] == Status::Unsat;
            assert(s.refuted_at(n, i));
        }
        if s.computed(n) == Status::Sat {
            assert forall|i: int| 0 <= i < s.children[n].len() implies #[trigger] s.blocked_at(
                n,
                i,
            ) by {
                assert(products[i] == Status::Sat);
            }
        }
        if forall|i: int| 0 <= i < s.children[n].len() ==> #[trigger] s.blocked_at(n, i) {
            assert forall|i: int| 0 <= i < products.len() implies products[i] == Status::Sat by {
                assert(s.blocked_at(n, i));
            }
        }
    }
}

/// The verdict that the inferences of a goal give depends on the verdicts
/// on their members alone.
pub proof fn lemma_computed_local(old: SearchView, new: SearchView, n: Id)
    requires
        new.children == old.children,
        new.trivial == old.trivial,
        old.expanded(n),
        forall|m: Id| old.edge(n, m) ==> new.status[m] == old.status[m],
    ensures
        new.computed(n) == old.computed(n),
{
    assert forall|i: int| 0 <= i < old.children[n].len() implies new.product(
        old.children[n][i],
    ) == old.product(old.children[n][i]) by {
        let inference = old.children[n][i];
        assert forall|j: int| 0 <= j < inference.len() implies new.status[inference[j]]
            == old.status[inference[j]] by {
            assert(inference.contains(inference[j]));
            assert(old.edge(n, inference[j]));
        }
        assert(new.statuses(inference) =~= old.statuses(inference));
    }
    assert(new.products(n) =~= old.products(n));
}

/// A final verdict that the inferences of a goal give stays as it is when
/// goals that were `Unknown` get final verdicts.
pub proof fn lemma_computed_stable(old: SearchView, new: SearchView, n: Id)
    requires
        new.children == old.children,
        new.trivial == old.trivial,
        forall|m: Id| old.edge(n, m) ==> old.has(m),
        new.refines(old),
        old.expanded(n),
        old.computed(n).known(),
    ensures
        new.computed(n) == old.computed(n),
{
    lemma_computed(old, n);
    lemma_computed(new, n);
    assert forall|i: int| old.refuted_at(n, i) implies new.refuted_at(n, i) by {
        let inference = old.children[n][i];
        assert forall|j: int| 0 <= j < inference.len() implies new.status[#[trigger] inference[j]]
            == Status::Unsat by {
            assert(inference.contains(inference[j]));
            assert(old.edge(n, inference[j]));
            assert(old.status[inference[j]] == Status::Unsat);
        }
    }
    assert forall|i: int| old.blocked_at(n, i) implies new.blocked_at(n, i) by {
        let inference = old.children[n][i];
        let j = choose|j: int|
            0 <= j < inference.len() && old.status[#[trigger] inference[j]] == Status::Sat;
        assert(inference.contains(inference[j]));
        assert(old.edge(n, inference[j]));
        assert(new.status[inference[j]] == Status::Sat);
    }
    if old.computed(n) == Status::Unsat && !old.trivial[n] {
        let i = choose|i: int| #[trigger] old.refuted_at(n, i);
        assert(new.refuted_at(n, i));
    }
    if old.computed(n) == Status::Sat {
        assert forall|i: int| 0 <= i < new.children[n].len() implies #[trigger] new.blocked_at(
            n,
            i,
        ) by {
            assert(old.blocked_at(n, i));
        }
    }
}

/// Giving a goal that was `Unknown` a final verdict leaves every other goal
/// with the verdict that it must have, but for the goals that the goal was
/// inferred from.
pub proof fn lemma_decide(old: SearchView, new: SearchView, f: Id, queue: Seq<Id>, more: Seq<Id>)
    requires
        old.shaped(),
        old.pending(queue),
        old.has(f),
        old.status[f] == Status::Unknown,
        new.same_shape(old),
        new.status == old.status.insert(f, new.status[f]),
        new.status[f].known(),
        new.forced == old.forced || new.forced == old.forced.insert(f),
        new.forced.contains(f) || (old.expanded(f) && new.status[f] == old.computed(f)),
        forall|x: Id| queue.contains(x) && x != f ==> more.contains(x),
        forall|x: Id| old.parents[f].contains(x) ==> more.contains(x),
    ensures
        new.shaped(),
        new.pending(more),
        new.refines(old),
{
    assert forall|n: Id, m: Id| new.edge(n, m) == old.edge(n, m) by {}
    assert forall|n: Id| new.has(n) == old.has(n) by {
        assert(new.status.dom().contains(n) == old.status.dom().contains(n));
    }
    assert(new.complete()) by {
        assert(new.status.dom() =~= old.status.dom());
    }
    assert(new.linked());
    assert(new.ranked());
    assert(new.decided()) by {
        assert forall|n: Id| #[trigger] new.forced.contains(n) implies new.status[n].known() by {
            if n != f {
                assert(old.forced.contains(n));
            }
        }
    }
    assert forall|n: Id|
        new.has(n) && !new.forced.contains(n) implies #[trigger] new.status[n] == new.target(n)
        || (new.status[n] == Status::Unknown && new.expanded(n) && more.contains(n)) by {
        assert(!old.forced.contains(n));
        if n == f {
            assert(!old.edge(f, f)) by {
                if old.edge(f, f) {
                    assert(old.rank[f] > old.rank[f]);
                }
            }
            lemma_computed_local(old, new, f);
        } else if old.edge(n, f) {
            assert(old.parents[f].contains(n));
            if old.status[n] == old.target(n) && old.status[n].known() {
                lemma_computed_stable(old, new, n);
            }
        } else if old.expanded(n) {
            lemma_computed_local(old, new, n);
        }
    }
}

/// The goals whose verdict is `Unknown` are fewer by one once one of them
/// has a final verdict.
pub proof fn lemma_unknown_fewer(old: SearchView, new: SearchView, f: Id)
    requires
        old.complete(),
        old.has(f),
        old.status[f] == Status::Unknown,
        new.status == old.status.insert(f, new.status[f]),
        new.status[f].known(),
    ensures
        new.unknown().finite(),
        old.unknown().finite(),
        new.unknown().len() + 1 == old.unknown().len(),
{
    broadcast use vstd::set::group_set_axioms;

    vstd::set_lib::lemma_len_subset(old.unknown(), old.status.dom());
    assert(new.unknown() =~= old.unknown().remove(f));
}

/// The goals whose verdict is `Unknown` are finitely many.
pub proof fn lemma_unknown_finite(s: SearchView)
    requires
        s.complete(),
    ensures
        s.unknown().finite(),
{
    vstd::set_lib::lemma_len_subset(s.unknown(), s.status.dom());
}

} // verus!
