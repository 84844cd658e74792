//! Reading a refutation off the search graph.

use crate::collections::{Id, IdSet};
use crate::search::graph::{inference_views, Search};
use crate::search::view::{lemma_computed, SearchView};
use crate::status::Status;
use std::collections::HashSet;
use vstd::prelude::*;

verus! {

broadcast use vstd::std_specs::hash::group_hash_axioms;

impl SearchView {
    /// Whether the inference of `n` at position `i` is the first one that
    /// refutes `n`.
    pub open spec fn first_refuted_at(self, n: Id, i: int) -> bool {
        self.refuted_at(n, i) && forall|k: int| 0 <= k < i ==> !#[trigger] self.refuted_at(n, k)
    }

    /// Whether `m` is a member of the first inference that refutes `n`.
    pub open spec fn supports(self, n: Id, m: Id) -> bool {
        self.expanded(n) && exists|i: int| #[trigger]
            self.first_refuted_at(n, i) && self.children[n][i].contains(m)
    }

    /// Whether `list` is a refutation of the root: it begins with the root,
    /// every goal that it lists is `Unsat`, every goal but the root is a
    /// member of the first refuting inference of a goal listed before it,
    /// and with a goal all members of its first refuting inference are
    /// listed.
    pub open spec fn is_refutation(self, list: Seq<Id>) -> bool {
        &&& list.len() > 0
        &&& list[0] == self.root
        &&& list.no_duplicates()
        &&& forall|i: int|
            0 <= i < list.len() ==> self.has(#[trigger] list[i]) && self.status[list[i]]
                == Status::Unsat
        &&& forall|i: int| 0 < i < list.len() ==> self.supported(list, i)
        &&& forall|n: Id, m: Id| list.contains(n) && #[trigger] self.supports(n, m) ==> list.contains(m)
    }

    /// Whether the goal at position `i` of `list` is a member of the first
    /// refuting inference of a goal listed before it.
    pub open spec fn supported(self, list: Seq<Id>, i: int) -> bool {
        exists|j: int| 0 <= j < i && self.supports(#[trigger] list[j], list[i])
    }
}

/// A refutation of goals that were not decided from outside, with no empty
/// inference among those that it follows, lists the goal `F`.
pub proof fn lemma_refutation_ends(s: SearchView, list: Seq<Id>)
    requires
        s.wf(),
        s.is_refutation(list),
        forall|i: int| 0 <= i < list.len() ==> !s.forced.contains(#[trigger] list[i]),
        forall|n: Id, i: int|
            list.contains(n) && #[trigger] s.first_refuted_at(n, i) ==> s.children[n][i].len() > 0,
    ensures
        exists|i: int| 0 <= i < list.len() && s.trivial[#[trigger] list[i]],
{
    let low = lowest(s, list, list.len() as int);
    lemma_lowest(s, list, list.len() as int);
    let x = list[low];
    assert(list.contains(x));
    if !s.trivial[x] {
        assert(s.status[x] == s.target(x));
        lemma_computed(s, x);
        assert(s.expanded(x));
        let some = choose|i: int| #[trigger] s.refuted_at(x, i);
        lemma_first_refuted(s, x, some);
        let i = choose|i: int| #[trigger] s.first_refuted_at(x, i);
        let m = s.children[x][i][0];
        assert(s.children[x][i].contains(m));
        assert(s.supports(x, m));
        assert(list.contains(m));
        assert(s.edge(x, m));
        assert(s.rank[x] > s.rank[m]);
        let k = choose|k: int| 0 <= k < list.len() && list[k] == m;
        assert(s.rank[list[low]] <= s.rank[list[k]]);
    }
}

/// Whether the refutation stops at the goal `x`: it is the goal `F`, or it
/// was decided from outside, or the inference that refutes it has no
/// member.
pub open spec fn stops_at(s: SearchView, x: Id) -> bool {
    ||| s.trivial[x]
    ||| s.forced.contains(x)
    ||| exists|i: int| #[trigger] s.first_refuted_at(x, i) && s.children[x][i].len() == 0
}

/// Every refutation lists a goal at which it stops: the goal `F`, a goal
/// that was decided from outside, or a goal refuted by an inference
/// without members.
pub proof fn lemma_refutation_stops(s: SearchView, list: Seq<Id>)
    requires
        s.wf(),
        s.is_refutation(list),
    ensures
        exists|i: int| 0 <= i < list.len() && stops_at(s, #[trigger] list[i]),
{
    let low = lowest(s, list, list.len() as int);
    lemma_lowest(s, list, list.len() as int);
    let x = list[low];
    assert(list.contains(x));
    if !stops_at(s, x) {
        assert(s.status[x] == s.target(x));
        lemma_computed(s, x);
        assert(s.expanded(x));
        let some = choose|i: int| #[trigger] s.refuted_at(x, i);
        lemma_first_refuted(s, x, some);
        let i = choose|i: int| #[trigger] s.first_refuted_at(x, i);
        assert(s.children[x][i].len() > 0);
        let m = s.children[x][i][0];
        assert(s.children[x][i].contains(m));
        assert(s.supports(x, m));
        assert(list.contains(m));
        assert(s.edge(x, m));
        assert(s.rank[x] > s.rank[m]);
        let k = choose|k: int| 0 <= k < list.len() && list[k] == m;
        assert(s.rank[list[low]] <= s.rank[list[k]]);
    }
}

/// A refutation of goals that were not decided from outside, with no empty
/// inference among those that it follows, lists the formula `F`.
pub proof fn lemma_refutation_lists_falsity(
    s: SearchView,
    store: crate::store::StoreView,
    list: Seq<Id>,
)
    requires
        s.wf(),
        crate::search::expansion::tied(s, store),
        s.is_refutation(list),
        forall|i: int| 0 <= i < list.len() ==> !s.forced.contains(#[trigger] list[i]),
        forall|n: Id, i: int|
            list.contains(n) && #[trigger] s.first_refuted_at(n, i) ==> s.children[n][i].len() > 0,
    ensures
        exists|i: int| 0 <= i < list.len() && store.formulae[(#[trigger] list[i]) as int] is F,
{
    lemma_refutation_ends(s, list);
    let i = choose|i: int| 0 <= i < list.len() && s.trivial[#[trigger] list[i]];
    assert(s.has(list[i]));
    assert(store.formulae[list[i] as int] is F);
}

/// The position among the first `n` goals of `list` of one that ranks
/// lowest.
pub open spec fn lowest(s: SearchView, list: Seq<Id>, n: int) -> int
    decreases n,
{
    if n <= 1 {
        0
    } else {
        let before = lowest(s, list, n - 1);
        if s.rank[list[n - 1]] < s.rank[list[before]] {
            n - 1
        } else {
            before
        }
    }
}

/// No goal among the first `n` ranks below the one at `lowest`.
pub proof fn lemma_lowest(s: SearchView, list: Seq<Id>, n: int)
    requires
        1 <= n <= list.len(),
    ensures
        0 <= lowest(s, list, n) < n,
        forall|k: int| 0 <= k < n ==> s.rank[list[lowest(s, list, n)]] <= s.rank[#[trigger] list[k]],
    decreases n,
{
    if n > 1 {
        lemma_lowest(s, list, n - 1);
    }
}

/// Where an inference refutes a goal, there is a first one that does.
pub proof fn lemma_first_refuted(s: SearchView, n: Id, i: int)
    requires
        s.refuted_at(n, i),
    ensures
        exists|k: int| #[trigger] s.first_refuted_at(n, k),
    decreases i,
{
    if exists|k: int| 0 <= k < i && #[trigger] s.refuted_at(n, k) {
        let k = choose|k: int| 0 <= k < i && #[trigger] s.refuted_at(n, k);
        lemma_first_refuted(s, n, k);
    } else {
        assert(s.first_refuted_at(n, i));
    }
}

/// Whether the goals of `list` from position `from` on are goals of the
/// graph that are `Unsat`.
pub open spec fn all_refuted(s: SearchView, list: Seq<Id>) -> bool {
    forall|i: int|
        0 <= i < list.len() ==> s.has(#[trigger] list[i]) && s.status[list[i]] == Status::Unsat
}

/// Whether each goal of `stack` is the root or supported by a goal of
/// `list`.
pub open spec fn stack_supported(s: SearchView, list: Seq<Id>, stack: Seq<Id>) -> bool {
    forall|i: int|
        0 <= i < stack.len() ==> (#[trigger] stack[i]) == s.root || exists|j: int|
            0 <= j < list.len() && s.supports(#[trigger] list[j], stack[i])
}

/// Whether everything that a goal of `list` supports is a goal of `list`
/// or of `stack`.
pub open spec fn closed_under(s: SearchView, list: Seq<Id>, stack: Seq<Id>) -> bool {
    forall|n: Id, m: Id|
        list.contains(n) && #[trigger] s.supports(n, m) ==> list.contains(m) || stack.contains(m)
}

/// Whether each goal of `list` but the first is supported by a goal listed
/// before it.
pub open spec fn all_supported(s: SearchView, list: Seq<Id>) -> bool {
    forall|i: int| 0 < i < list.len() ==> s.supported(list, i)
}

impl Search {
    /// The position of the first inference of `list` whose members are all
    /// `Unsat`.
    fn first_refuting(&self, f: Id, list: &Vec<IdSet>) -> (found: Option<usize>)
        requires
            self.wf(),
            self@.expanded(f),
            inference_views(list@) == self@.children[f],
        ensures
            match found {
                Some(i) => self@.first_refuted_at(f, i as int),
                None => forall|i: int| !#[trigger] self@.refuted_at(f, i),
            },
    {
        let n = list.len();
        let mut i: usize = 0;
        while i < n
            invariant
                n == list@.len(),
                i <= n,
                self.wf(),
                self@.expanded(f),
                inference_views(list@) == self@.children[f],
                forall|k: int| 0 <= k < i ==> !#[trigger] self@.refuted_at(f, k),
            decreases n - i,
        {
            let inference = &list[i];
            let m = inference.len();
            let mut j: usize = 0;
            let mut all = true;
            proof {
                assert(self@.children[f][i as int] == inference@);
                assert forall|x: int| 0 <= x < inference@.len() implies self@.has(
                    inference@[x],
                ) by {
                    assert(inference@.contains(inference@[x]));
                    assert(self@.edge(f, inference@[x]));
                }
            }
            while j < m
                invariant
                    m == inference@.len(),
                    j <= m,
                    forall|x: int| 0 <= x < inference@.len() ==> self@.has(inference@[x]),
                    all == forall|x: int|
                        0 <= x < j ==> self@.status[#[trigger] inference@[x]] == Status::Unsat,
                decreases m - j,
            {
                if self.node_status(inference.at(j)) != Status::Unsat {
                    all = false;
                }
                j += 1;
            }
            if all {
                proof {
                    assert(self@.all_unsat(inference@));
                }
                return Some(i);
            }
            proof {
                assert(!self@.all_unsat(inference@)) by {
                    let x = choose|x: int|
                        0 <= x < m && self@.status[#[trigger] inference@[x]] != Status::Unsat;
                }
            }
            i += 1;
        }
        None
    }

    /// A refutation of the root: the root, then, goal by goal, the members
    /// of the first inference that refutes the goal, each goal once.
    pub fn refutation(&self) -> (list: Vec<Id>)
        requires
            self.wf(),
            self@.status[self@.root] == Status::Unsat,
        ensures
            self@.is_refutation(list@),
    {
        let ghost s = self@;
        let mut list: Vec<Id> = Vec::new();
        let mut seen: HashSet<Id> = HashSet::new();
        let mut stack: Vec<Id> = Vec::new();
        stack.push(self.root);
        proof {
            self.lemma_view();
            vstd::set_lib::lemma_len_subset(seen@, s.status.dom());
            assert(stack@[0] == s.root);
        }
        while stack.len() > 0
            invariant
                s == self@,
                self.wf(),
                s.status[s.root] == Status::Unsat,
                seen@.finite(),
                seen@.subset_of(s.status.dom()),
                list@.no_duplicates(),
                forall|x: Id| seen@.contains(x) <==> list@.contains(x),
                all_refuted(s, list@),
                all_refuted(s, stack@),
                list@.len() > 0 ==> list@[0] == s.root,
                list@.len() == 0 ==> stack@ == seq![s.root],
                stack_supported(s, list@, stack@),
                all_supported(s, list@),
                closed_under(s, list@, stack@),
            decreases s.status.dom().len() - seen@.len(), stack@.len(),
        {
            broadcast use vstd::set::group_set_axioms;

            let ghost waiting = stack@;
            let ghost sofar = list@;
            let ghost before = seen@;
            let f = stack.pop().unwrap();
            let ghost rest = stack@;
            proof {
                assert(waiting[waiting.len() - 1] == f);
                assert(s.has(f) && s.status[f] == Status::Unsat);
                assert forall|x: Id| waiting.contains(x) implies rest.contains(x) || x == f by {
                    let k = choose|k: int| 0 <= k < waiting.len() && waiting[k] == x;
                    if k < rest.len() {
                        assert(rest[k] == x);
                    }
                }
            }
            if !seen.contains(&f) {
                seen.insert(f);
                list.push(f);
                let ghost listed = list@;
                proof {
                    crate::collections::lemma_push_contains(sofar, f);
                    assert(listed.no_duplicates()) by {
                        assert forall|a: int, b: int|
                            0 <= a < listed.len() && 0 <= b < listed.len() && a
                            != b implies listed[a] != listed[b] by {
                            if a < sofar.len() && b < sofar.len() {
                                assert(sofar[a] != sofar[b]);
                            } else if a < sofar.len() {
                                assert(sofar.contains(sofar[a]));
                            } else {
                                assert(sofar.contains(sofar[b]));
                            }
                        }
                    }
                    assert forall|i: int| 0 < i < listed.len() implies s.supported(listed, i) by {
                        if i < sofar.len() {
                            assert(s.supported(sofar, i));
                            let j = choose|j: int|
                                0 <= j < i && s.supports(#[trigger] sofar[j], sofar[i]);
                            assert(s.supports(listed[j], listed[i]));
                        } else {
                            assert(f != s.root) by {
                                assert(sofar[0] == s.root);
                                assert(sofar.contains(s.root));
                            }
                            let j = choose|j: int|
                                0 <= j < sofar.len() && s.supports(#[trigger] sofar[j], f);
                            assert(s.supports(listed[j], listed[i]));
                        }
                    }
                    vstd::set_lib::lemma_len_subset(seen@, s.status.dom());
                }
                let mut pushed = false;
                match self.node_children(f) {
                    Some(inferences) => {
                        match self.first_refuting(f, inferences) {
                            Some(i) => {
                                let members = inferences[i].to_vec();
                                let ghost inference = s.children[f][i as int];
                                let mut k = members.len();
                                proof {
                                    assert(inference == members@);
                                }
                                while k > 0
                                    invariant
                                        k <= members@.len(),
                                        members@ == inference,
                                        s == self@,
                                        s.expanded(f),
                                        s.first_refuted_at(f, i as int),
                                        inference == s.children[f][i as int],
                                        stack@.len() == rest.len() + (members@.len() - k),
                                        forall|x: int| 0 <= x < rest.len() ==> stack@[x] == rest[x],
                                        forall|x: int|
                                            rest.len() <= x < stack@.len() ==> inference.contains(
                                                #[trigger] stack@[x],
                                            ),
                                        forall|x: int|
                                            k <= x < members@.len() ==> stack@.contains(
                                                #[trigger] members@[x],
                                            ),
                                    decreases k,
                                {
                                    k -= 1;
                                    let ghost earlier = stack@;
                                    stack.push(members[k]);
                                    proof {
                                        assert(inference.contains(members@[k as int]));
                                        assert forall|x: int|
                                            k <= x < members@.len() implies stack@.contains(
                                            #[trigger] members@[x],
                                        ) by {
                                            if x == k {
                                                assert(stack@[earlier.len() as int] == members@[x]);
                                            } else {
                                                assert(earlier.contains(members@[x]));
                                                let y = choose|y: int|
                                                    0 <= y < earlier.len() && earlier[y]
                                                        == members@[x];
                                                assert(stack@[y] == members@[x]);
                                            }
                                        }
                                    }
                                }
                                pushed = true;
                                proof {
                                    assert forall|x: int| 0 <= x < stack@.len() implies s.has(
                                        #[trigger] stack@[x],
                                    ) && s.status[stack@[x]] == Status::Unsat by {
                                        if x >= rest.len() {
                                            let m = stack@[x];
                                            assert(inference.contains(m));
                                            assert(s.edge(f, m));
                                            let y = choose|y: int|
                                                0 <= y < inference.len() && inference[y] == m;
                                            assert(s.all_unsat(inference));
                                        } else {
                                            assert(stack@[x] == rest[x]);
                                            assert(rest[x] == waiting[x]);
                                        }
                                    }
                                    assert forall|x: int| 0 <= x < stack@.len() implies (
                                    #[trigger] stack@[x]) == s.root || exists|j: int|
                                        0 <= j < listed.len() && s.supports(
                                            #[trigger] listed[j],
                                            stack@[x],
                                        ) by {
                                        if x >= rest.len() {
                                            assert(s.supports(f, stack@[x]));
                                            assert(listed[sofar.len() as int] == f);
                                        } else {
                                            assert(stack@[x] == rest[x]);
                                            assert(rest[x] == waiting[x]);
                                            if waiting[x] != s.root {
                                                let j = choose|j: int|
                                                    0 <= j < sofar.len() && s.supports(
                                                        #[trigger] sofar[j],
                                                        waiting[x],
                                                    );
                                                assert(listed[j] == sofar[j]);
                                            }
                                        }
                                    }
                                    assert forall|n: Id, m: Id|
                                        listed.contains(n) && #[trigger] s.supports(
                                            n,
                                            m,
                                        ) implies listed.contains(m) || stack@.contains(m) by {
                                        if n == f {
                                            let i2 = choose|i2: int| #[trigger]
                                                s.first_refuted_at(f, i2)
                                                    && s.children[f][i2].contains(m);
                                            assert(i2 == i) by {
                                                if i2 < i {
                                                    assert(!s.refuted_at(f, i2));
                                                }
                                                if i < i2 {
                                                    assert(!s.refuted_at(f, i as int));
                                                }
                                            }
                                            let y = choose|y: int|
                                                0 <= y < members@.len() && members@[y] == m;
                                            assert(stack@.contains(members@[y]));
                                        } else {
                                            assert(sofar.contains(n));
                                            if !sofar.contains(m) {
                                                assert(waiting.contains(m));
                                                if rest.contains(m) {
                                                    let y = choose|y: int|
                                                        0 <= y < rest.len() && rest[y] == m;
                                                    assert(stack@[y] == m);
                                                }
                                            }
                                        }
                                    }
                                }
                            },
                            None => {},
                        }
                    },
                    None => {},
                }
                proof {
                    if !pushed {
                        assert(stack@ == rest);
                        assert forall|x: int| 0 <= x < rest.len() implies (#[trigger] rest[x])
                            == s.root || exists|j: int|
                            0 <= j < listed.len() && s.supports(#[trigger] listed[j], rest[x]) by {
                            assert(rest[x] == waiting[x]);
                            if waiting[x] != s.root {
                                let j = choose|j: int|
                                    0 <= j < sofar.len() && s.supports(
                                        #[trigger] sofar[j],
                                        waiting[x],
                                    );
                                assert(listed[j] == sofar[j]);
                            }
                        }
                        assert forall|n: Id, m: Id|
                            listed.contains(n) && #[trigger] s.supports(
                                n,
                                m,
                            ) implies listed.contains(m) || rest.contains(m) by {
                            if n == f {
                                let i2 = choose|i2: int| #[trigger]
                                    s.first_refuted_at(f, i2) && s.children[f][i2].contains(m);
                                assert(s.refuted_at(f, i2));
                            } else {
                                assert(sofar.contains(n));
                            }
                        }
                        assert forall|x: int| 0 <= x < rest.len() implies s.has(
                            #[trigger] rest[x],
                        ) && s.status[rest[x]] == Status::Unsat by {
                            assert(rest[x] == waiting[x]);
                        }
                    }
                    if sofar.len() == 0 {
                        assert(waiting == seq![s.root]);
                        assert(f == s.root);
                    }
                }
            } else {
                proof {
                    assert(sofar.contains(f));
                    assert(sofar.len() > 0);
                    assert forall|x: int| 0 <= x < rest.len() implies (#[trigger] rest[x])
                        == s.root || exists|j: int|
                        0 <= j < sofar.len() && s.supports(#[trigger] sofar[j], rest[x]) by {
                        assert(rest[x] == waiting[x]);
                    }
                    assert forall|x: int| 0 <= x < rest.len() implies s.has(#[trigger] rest[x])
                        && s.status[rest[x]] == Status::Unsat by {
                        assert(rest[x] == waiting[x]);
                    }
                }
            }
        }
        proof {
            assert(list@.len() > 0) by {
                if list@.len() == 0 {
                    assert(stack@ == seq![s.root]);
                }
            }
            assert forall|n: Id, m: Id| list@.contains(n) && #[trigger] s.supports(n, m) implies list@.contains(
                m,
            ) by {
                assert(!stack@.contains(m));
            }
        }
        list
    }
}

} // verus!
