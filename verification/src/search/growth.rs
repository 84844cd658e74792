//! What expanding a goal does to the search graph.

use crate::collections::{ascending, Id};
use crate::score::Score;
use crate::search::ancestry::{ancestor, lemma_ancestor_step};
use crate::search::view::SearchView;
use crate::status::Status;
use vstd::prelude::*;

verus! {

/// The verdict that a goal has before anything is known of it: `Unsat` for
/// the goal `F`, else `Unknown`.
pub open spec fn first_verdict(trivial: bool) -> Status {
    if trivial {
        Status::Unsat
    } else {
        Status::Unknown
    }
}

/// The goals that `m` was inferred from, once `leaf` is among them.
pub open spec fn with_parent(old: SearchView, m: Id, leaf: Id) -> Seq<Id> {
    if old.has(m) {
        if old.parents[m].contains(leaf) {
            old.parents[m]
        } else {
            old.parents[m].push(leaf)
        }
    } else {
        seq![leaf]
    }
}

/// The graph `old` with the goals `members` added where they are new, each
/// with `leaf` among the goals that it was inferred from. Whether a new goal
/// is the goal `F` is told by `trivial`.
pub open spec fn grown(
    old: SearchView,
    leaf: Id,
    members: Set<Id>,
    trivial: spec_fn(Id) -> bool,
) -> SearchView {
    SearchView {
        root: old.root,
        status: Map::new(
            |n: Id| old.has(n) || members.contains(n),
            |n: Id|
                if old.has(n) {
                    old.status[n]
                } else {
                    first_verdict(trivial(n))
                },
        ),
        score: Map::new(
            |n: Id| old.has(n) || members.contains(n),
            |n: Id|
                if old.has(n) {
                    old.score[n]
                } else {
                    Score(0)
                },
        ),
        visits: Map::new(
            |n: Id| old.has(n) || members.contains(n),
            |n: Id|
                if old.has(n) {
                    old.visits[n]
                } else {
                    0usize
                },
        ),
        trivial: Map::new(
            |n: Id| old.has(n) || members.contains(n),
            |n: Id|
                if old.has(n) {
                    old.trivial[n]
                } else {
                    trivial(n)
                },
        ),
        parents: Map::new(
            |n: Id| old.has(n) || members.contains(n),
            |n: Id|
                if members.contains(n) {
                    with_parent(old, n, leaf)
                } else {
                    old.parents[n]
                },
        ),
        children: old.children,
        rank: Map::new(
            |n: Id| old.has(n) || members.contains(n),
            |n: Id|
                if old.has(n) {
                    old.rank[n]
                } else {
                    0nat
                },
        ),
        bound: old.bound,
        forced: old.forced,
    }
}

/// Whether `m` is a member of one of the inferences `kept`.
pub open spec fn is_member(kept: Seq<Seq<Id>>, m: Id) -> bool {
    exists|i: int| 0 <= i < kept.len() && (#[trigger] kept[i]).contains(m)
}

/// The members of the inferences `kept`.
pub open spec fn members_of(kept: Seq<Seq<Id>>) -> Set<Id> {
    Set::new(|m: Id| is_member(kept, m))
}

/// The goal `leaf` and the goals above it.
pub open spec fn lineage(old: SearchView, leaf: Id) -> Set<Id> {
    Set::new(|n: Id| n == leaf || (old.has(n) && ancestor(old, n, leaf)))
}

/// The graph `mid` with the inferences `kept` as those of `leaf`, and with
/// `leaf` and the goals above it ranked above all other goals.
pub open spec fn expanded_with(old: SearchView, mid: SearchView, leaf: Id, kept: Seq<Seq<Id>>) -> SearchView {
    SearchView {
        children: mid.children.insert(leaf, kept),
        rank: Map::new(
            |n: Id| mid.rank.contains_key(n),
            |n: Id|
                if lineage(old, leaf).contains(n) {
                    mid.rank[n] + old.bound + 1
                } else {
                    mid.rank[n]
                },
        ),
        bound: 2 * old.bound + 1,
        ..mid
    }
}

/// Expanding a goal at the frontier with inferences that have no member
/// among the goal and the goals above it leaves the graph in shape, and
/// leaves every goal but the expanded one with the verdict that it must
/// have.
pub proof fn lemma_expanded(
    old: SearchView,
    leaf: Id,
    kept: Seq<Seq<Id>>,
    trivial: spec_fn(Id) -> bool,
)
    requires
        old.wf(),
        old.has(leaf),
        !old.expanded(leaf),
        old.status[leaf] == Status::Unknown,
        forall|i: int| 0 <= i < kept.len() ==> ascending(#[trigger] kept[i]),
        forall|m: Id| is_member(kept, m) ==> !lineage(old, leaf).contains(m),
        members_of(kept).finite(),
    ensures
        expanded_with(old, grown(old, leaf, members_of(kept), trivial), leaf, kept).shaped(),
        expanded_with(old, grown(old, leaf, members_of(kept), trivial), leaf, kept).pending(
            seq![leaf],
        ),
        expanded_with(old, grown(old, leaf, members_of(kept), trivial), leaf, kept).refines(old),
{
    let members = members_of(kept);
    let mid = grown(old, leaf, members, trivial);
    let new = expanded_with(old, mid, leaf, kept);
    let up = lineage(old, leaf);
    assert(!old.forced.contains(leaf)) by {
        if old.forced.contains(leaf) {
            assert(old.status[leaf].known());
        }
    }
    assert forall|n: Id| new.has(n) <==> (old.has(n) || members.contains(n)) by {}
    assert forall|n: Id, m: Id| n != leaf implies new.edge(n, m) == old.edge(n, m) by {
        if n != leaf {
            assert(new.children.contains_key(n) == old.children.contains_key(n));
            if old.expanded(n) {
                assert(new.children[n] == old.children[n]);
            }
        }
    }
    assert forall|m: Id| new.edge(leaf, m) == is_member(kept, m) by {
        assert(new.children[leaf] == kept);
    }
    // the graph is complete
    assert(new.complete()) by {
        assert(new.status.dom() =~= old.status.dom().union(members));
        vstd::set::axiom_set_union_finite(old.status.dom(), members);
        assert forall|n: Id| new.expanded(n) implies new.has(n) by {
            if n != leaf {
                assert(old.expanded(n));
            }
        }
    }
    // the goals are linked
    assert forall|n: Id, m: Id| #[trigger] new.edge(n, m) implies new.has(m)
        && new.parents[m].contains(n) by {
        if n == leaf {
            assert(members.contains(m));
            let ps = with_parent(old, m, leaf);
            if old.has(m) && !old.parents[m].contains(leaf) {
                assert(ps[ps.len() - 1] == leaf);
            }
            if !old.has(m) {
                assert(ps[0] == leaf);
            }
        } else {
            assert(old.edge(n, m));
            assert(old.parents[m].contains(n));
            if members.contains(m) && !old.parents[m].contains(leaf) {
                let k = choose|k: int| 0 <= k < old.parents[m].len() && old.parents[m][k] == n;
                assert(old.parents[m].push(leaf)[k] == n);
            }
        }
    }
    assert forall|m: Id, p: Id| new.has(m) && #[trigger] new.parents[m].contains(p) implies new.edge(
        p,
        m,
    ) by {
        if p == leaf {
            if !members.contains(m) {
                assert(old.parents[m].contains(leaf));
                assert(old.edge(leaf, m));
            }
        } else {
            if members.contains(m) {
                let ps = with_parent(old, m, leaf);
                let k = choose|k: int| 0 <= k < ps.len() && ps[k] == p;
                if old.has(m) {
                    if !old.parents[m].contains(leaf) {
                        assert(k < old.parents[m].len());
                        assert(old.parents[m][k] == p);
                    }
                    assert(old.parents[m].contains(p));
                }
            }
            assert(old.has(m) && old.parents[m].contains(p));
            assert(old.edge(p, m));
        }
    }
    assert forall|n: Id, i: int|
        new.expanded(n) && 0 <= i < new.children[n].len() implies ascending(
        #[trigger] new.children[n][i],
    ) by {
        if n != leaf {
            assert(new.children[n] == old.children[n]);
        }
    }
    // goals rank above the members of their inferences
    assert forall|n: Id, m: Id| #[trigger] new.edge(n, m) implies new.rank[n] > new.rank[m] by {
        if n == leaf {
            assert(!up.contains(m));
            assert(up.contains(leaf));
            if old.has(m) {
                assert(old.rank[m] <= old.bound);
            }
        } else {
            assert(old.edge(n, m));
            assert(old.rank[n] > old.rank[m]);
            if up.contains(m) {
                lemma_ancestor_step(old, n, m, leaf);
                assert(up.contains(n));
            }
        }
    }
    assert forall|n: Id| new.has(n) implies #[trigger] new.rank[n] <= new.bound by {
        if old.has(n) {
            assert(old.rank[n] <= old.bound);
        }
    }
    assert(new.decided()) by {
        assert forall|n: Id| #[trigger] new.forced.contains(n) implies new.status[n].known() by {
            assert(old.has(n));
        }
    }
    assert(new.shaped());
    // verdicts
    assert forall|n: Id| new.has(n) && !new.forced.contains(n) implies #[trigger] new.status[n]
        == new.target(n) || (new.status[n] == Status::Unknown && new.expanded(n) && seq![
        leaf,
    ].contains(n)) by {
        if n == leaf {
            assert(seq![leaf][0] == leaf);
        } else if old.has(n) {
            assert(old.status[n] == old.target(n));
            if old.expanded(n) {
                lemma_computed_same(old, new, n);
            }
        }
    }
    assert forall|n: Id| old.has(n) && old.status[n].known() implies #[trigger] new.status[n]
        == old.status[n] by {}
}

/// The verdict that the inferences of a goal give is the same in two graphs
/// in which the goal has the same inferences and their members the same
/// verdicts.
pub proof fn lemma_computed_same(old: SearchView, new: SearchView, n: Id)
    requires
        old.expanded(n),
        new.expanded(n),
        new.children[n] == old.children[n],
        new.trivial[n] == old.trivial[n],
        forall|m: Id| old.edge(n, m) ==> new.status[m] == old.status[m],
    ensures
        new.computed(n) == old.computed(n),
{
    assert forall|i: int| 0 <= i < old.children[n].len() implies new.product(
        old.children[n][i],
    ) == old.product(old.children[n][i]) by {
        let inference = old.children[n][i];
        assert forall|j: int| 0 <= j < inference.len() implies new.status[inference[j]]
            == old.status[inference[j]] by {
            assert(inference.contains(inference[j]));
            assert(old.edge(n, inference[j]));
        }
        assert(new.statuses(inference) =~= old.statuses(inference));
    }
    assert(new.products(n) =~= old.products(n));
}

} // verus!
