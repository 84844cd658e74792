//! The goals above a goal.

use crate::collections::Id;
use crate::search::graph::Search;
use crate::search::view::{lemma_acyclic, SearchView};
use std::collections::HashSet;
use vstd::prelude::*;

verus! {

broadcast use vstd::std_specs::hash::group_hash_axioms;

/// Whether `path` leads from `a` down to `f` along inferences.
pub open spec fn leads(s: SearchView, path: Seq<Id>, a: Id, f: Id) -> bool {
    s.is_path(path) && path.len() >= 2 && path.first() == a && path.last() == f
}

/// Whether `a` is above `f`: `f` is a member of an inference of `a`, or of
/// an inference of a goal below `a`.
pub open spec fn ancestor(s: SearchView, a: Id, f: Id) -> bool {
    exists|path: Seq<Id>| leads(s, path, a, f)
}

/// A goal is above the members of its inferences, and above all that they
/// are above.
pub proof fn lemma_ancestor_step(s: SearchView, p: Id, x: Id, f: Id)
    requires
        s.edge(p, x),
        x == f || ancestor(s, x, f),
    ensures
        ancestor(s, p, f),
{
    if x == f {
        let path = seq![p, f];
        assert(s.is_path(path)) by {
            assert forall|i: int| 0 <= i < path.len() - 1 implies s.edge(
                #[trigger] path[i],
                path[i + 1],
            ) by {}
        }
        assert(leads(s, path, p, f));
    } else {
        let rest = choose|path: Seq<Id>| leads(s, path, x, f);
        let path = seq![p] + rest;
        assert(s.is_path(path)) by {
            assert forall|i: int| 0 <= i < path.len() - 1 implies s.edge(
                #[trigger] path[i],
                path[i + 1],
            ) by {
                if i > 0 {
                    assert(path[i] == rest[i - 1]);
                    assert(path[i + 1] == rest[i]);
                    assert(s.edge(rest[i - 1], rest[i - 1 + 1]));
                }
            }
        }
        assert(leads(s, path, p, f));
    }
}

/// No goal is above itself.
pub proof fn lemma_not_own_ancestor(s: SearchView, f: Id)
    requires
        s.ranked(),
    ensures
        !ancestor(s, f, f),
{
    if ancestor(s, f, f) {
        let path = choose|path: Seq<Id>| leads(s, path, f, f);
        lemma_acyclic(s, path);
    }
}

/// Whether the goals of `found`, and `f`, are inferred from nothing but the
/// goals of `found`, of `todo` from `head` on, and `f`.
pub open spec fn closed_but(s: SearchView, f: Id, found: Set<Id>, todo: Seq<Id>, head: int) -> bool {
    forall|x: Id, p: Id|
        found.contains(x) && #[trigger] s.parents[x].contains(p) ==> found.contains(p) || (exists|
            i: int,
        |
            head <= i < todo.len() && todo[i] == p)
}

/// Whether the goals of `found` other than `f` are those of `list`.
pub open spec fn collects(found: Set<Id>, list: Seq<Id>, f: Id) -> bool {
    &&& list.no_duplicates()
    &&& !list.contains(f)
    &&& forall|x: Id| found.contains(x) <==> (x == f || list.contains(x))
}

/// Whether each of the goals is above `f`.
pub open spec fn all_above(s: SearchView, list: Seq<Id>, from: int, f: Id) -> bool {
    forall|i: int| from <= i < list.len() ==> s.has(#[trigger] list[i]) && ancestor(s, list[i], f)
}

/// The goals found when the goals `todo` are looked at in their order,
/// given the goals `found` that were found before: a goal that is `f` or
/// was found is passed over; any other goal is found, and the goals that it
/// was inferred from are looked at after all that wait. At most `fuel`
/// goals are found.
pub open spec fn climbed(s: SearchView, f: Id, todo: Seq<Id>, found: Seq<Id>, fuel: nat) -> Seq<Id>
    decreases fuel, todo.len(),
{
    if todo.len() == 0 {
        found
    } else {
        let x = todo[0];
        let rest = todo.subrange(1, todo.len() as int);
        if x == f || found.contains(x) {
            climbed(s, f, rest, found, fuel)
        } else if fuel == 0 {
            found
        } else {
            climbed(s, f, rest + s.parents[x], found.push(x), (fuel - 1) as nat)
        }
    }
}

/// Whether `list` holds the goals above `f` in breadth-first order: first
/// the goals that `f` was inferred from, then those that these were
/// inferred from, and so on, each goal where it is met first.
pub open spec fn breadth_first(s: SearchView, f: Id, list: Seq<Id>) -> bool {
    list == climbed(s, f, s.parents[f], Seq::empty(), list.len())
}

/// Whether what is found from the start with `k` more goals than `list`
/// holds is what is found from `todo` after `list` with `k` goals.
pub open spec fn climbing(s: SearchView, f: Id, todo: Seq<Id>, list: Seq<Id>, k: nat) -> bool {
    climbed(s, f, s.parents[f], Seq::empty(), list.len() + k) == climbed(s, f, todo, list, k)
}

/// Whether `list` holds the goals above `f`, each once.
pub open spec fn ancestors(s: SearchView, f: Id, list: Seq<Id>) -> bool {
    &&& list.no_duplicates()
    &&& forall|x: Id| list.contains(x) <==> s.has(x) && ancestor(s, x, f)
}

/// Where a goal above `f` is not among the goals found, the search for the
/// goals above `f` is not closed.
pub proof fn lemma_closed_complete(s: SearchView, f: Id, found: Set<Id>, path: Seq<Id>)
    requires
        s.linked(),
        found.contains(f),
        forall|x: Id, p: Id|
            found.contains(x) && #[trigger] s.parents[x].contains(p) ==> found.contains(p),
        forall|x: Id| found.contains(x) ==> s.has(x),
        s.is_path(path),
        path.len() >= 1,
        path.last() == f,
    ensures
        found.contains(path.first()),
    decreases path.len(),
{
    if path.len() > 1 {
        let rest = path.subrange(1, path.len() as int);
        assert forall|i: int| 0 <= i < rest.len() - 1 implies s.edge(
            #[trigger] rest[i],
            rest[i + 1],
        ) by {
            assert(s.edge(path[i + 1], path[i + 1 + 1]));
        }
        lemma_closed_complete(s, f, found, rest);
        assert(s.edge(path[0], path[1]));
        assert(s.parents[path[1]].contains(path[0]));
    }
}

impl Search {
    /// The goals above `f`, each once, in breadth-first order.
    pub fn ancestors_of(&self, f: Id) -> (list: Vec<Id>)
        requires
            self.wf(),
            self@.has(f),
        ensures
            ancestors(self@, f, list@),
            breadth_first(self@, f, list@),
    {
        let ghost s = self@;
        let mut done: HashSet<Id> = HashSet::new();
        let mut list: Vec<Id> = Vec::new();
        done.insert(f);
        let mut todo: Vec<Id> = self.node_parents(f).clone();
        let mut head: usize = 0;
        proof {
            assert forall|i: int| 0 <= i < todo@.len() implies s.has(#[trigger] todo@[i])
                && ancestor(s, todo@[i], f) by {
                assert(s.parents[f].contains(todo@[i]));
                assert(s.edge(todo@[i], f));
                lemma_ancestor_step(s, todo@[i], f, f);
            }
            assert forall|x: Id, p: Id|
                done@.contains(x) && #[trigger] s.parents[x].contains(p) implies done@.contains(p)
                || (exists|i: int| 0 <= i < todo@.len() && todo@[i] == p) by {
                let k = choose|k: int| 0 <= k < s.parents[x].len() && s.parents[x][k] == p;
                assert(todo@[k] == p);
            }
            vstd::set_lib::lemma_len_subset(done@, s.status.dom());
            assert(todo@ =~= s.parents[f]);
            assert(todo@.subrange(0, todo@.len() as int) =~= todo@);
        }
        while head < todo.len()
            invariant
                forall|k: nat| #[trigger]
                    climbing(s, f, todo@.subrange(head as int, todo@.len() as int), list@, k),
                s == self@,
                self.wf(),
                s.has(f),
                head <= todo@.len(),
                done@.finite(),
                done@.subset_of(s.status.dom()),
                collects(done@, list@, f),
                closed_but(s, f, done@, todo@, head as int),
                all_above(s, todo@, 0, f),
                all_above(s, list@, 0, f),
            decreases s.status.dom().len() - done@.len(), todo@.len() - head,
        {
            broadcast use vstd::set::group_set_axioms;

            let next = todo[head];
            let ghost before = done@;
            let ghost sofar = list@;
            let ghost waiting = todo@;
            proof {
                assert(s.has(next) && ancestor(s, next, f));
                lemma_not_own_ancestor(s, f);
            }
            if !done.contains(&next) {
                done.insert(next);
                list.push(next);
                let mut parents = self.node_parents(next).clone();
                let ghost above = parents@;
                todo.append(&mut parents);
                proof {
                    let sub = waiting.subrange(head as int, waiting.len() as int);
                    let after = todo@.subrange(head + 1, todo@.len() as int);
                    assert(sub[0] == next);
                    assert(above =~= s.parents[next]);
                    assert(after =~= sub.subrange(1, sub.len() as int) + s.parents[next]);
                    assert(!sofar.contains(next) && next != f);
                    assert forall|k: nat| #[trigger] climbing(s, f, after, list@, k) by {
                        assert(climbing(s, f, sub, sofar, (k + 1) as nat));
                        assert(climbed(s, f, sub, sofar, (k + 1) as nat) == climbed(
                            s,
                            f,
                            after,
                            sofar.push(next),
                            k,
                        ));
                    }
                }
                proof {
                    assert forall|i: int| 0 <= i < todo@.len() implies s.has(#[trigger] todo@[i])
                        && ancestor(s, todo@[i], f) by {
                        if i >= waiting.len() {
                            let p = above[i - waiting.len()];
                            assert(s.parents[next].contains(p));
                            assert(s.edge(p, next));
                            lemma_ancestor_step(s, p, next, f);
                        } else {
                            assert(todo@[i] == waiting[i]);
                        }
                    }
                    assert forall|i: int| 0 <= i < list@.len() implies s.has(#[trigger] list@[i])
                        && ancestor(s, list@[i], f) by {
                        if i < sofar.len() {
                            assert(list@[i] == sofar[i]);
                        }
                    }
                    assert(list@.no_duplicates()) by {
                        assert forall|i: int, j: int|
                            0 <= i < list@.len() && 0 <= j < list@.len() && i != j implies list@[i]
                            != list@[j] by {
                            if i < sofar.len() && j < sofar.len() {
                                assert(sofar[i] != sofar[j]);
                            } else if i < sofar.len() {
                                assert(sofar.contains(sofar[i]));
                            } else {
                                assert(sofar.contains(sofar[j]));
                            }
                        }
                    }
                    assert forall|x: Id| done@.contains(x) <==> (x == f || list@.contains(x)) by {
                        if list@.contains(x) {
                            let k = choose|k: int| 0 <= k < list@.len() && list@[k] == x;
                            if k < sofar.len() {
                                assert(sofar[k] == x);
                                assert(sofar.contains(x));
                            }
                        }
                        if sofar.contains(x) {
                            let k = choose|k: int| 0 <= k < sofar.len() && sofar[k] == x;
                            assert(list@[k] == x);
                        }
                        if x == next {
                            assert(list@[sofar.len() as int] == x);
                        }
                    }
                    assert(!list@.contains(f)) by {
                        if list@.contains(f) {
                            let k = choose|k: int| 0 <= k < list@.len() && list@[k] == f;
                            if k < sofar.len() {
                                assert(sofar.contains(f));
                            }
                        }
                    }
                    assert forall|x: Id, p: Id|
                        done@.contains(x) && #[trigger] s.parents[x].contains(p) implies done@.contains(
                        p,
                    ) || (exists|i: int| head + 1 <= i < todo@.len() && todo@[i] == p) by {
                        if x == next {
                            let k = choose|k: int| 0 <= k < above.len() && above[k] == p;
                            assert(todo@[waiting.len() + k] == p);
                        } else {
                            assert(before.contains(x));
                            if !before.contains(p) {
                                let i = choose|i: int| head <= i < waiting.len() && waiting[i] == p;
                                assert(todo@[i] == p);
                                if i == head {
                                    assert(p == next);
                                }
                            }
                        }
                    }
                    vstd::set_lib::lemma_len_subset(done@, s.status.dom());
                }
            } else {
                proof {
                    assert forall|x: Id, p: Id|
                        done@.contains(x) && #[trigger] s.parents[x].contains(p) implies done@.contains(
                        p,
                    ) || (exists|i: int| head + 1 <= i < todo@.len() && todo@[i] == p) by {
                        if !done@.contains(p) {
                            let i = choose|i: int| head <= i < waiting.len() && waiting[i] == p;
                            assert(i != head);
                        }
                    }
                    let sub = waiting.subrange(head as int, waiting.len() as int);
                    let after = todo@.subrange(head + 1, todo@.len() as int);
                    assert(sub[0] == next);
                    assert(after =~= sub.subrange(1, sub.len() as int));
                    assert(next == f || sofar.contains(next));
                    assert forall|k: nat| #[trigger] climbing(s, f, after, list@, k) by {
                        assert(climbing(s, f, sub, sofar, k));
                    }
                }
            }
            head += 1;
        }
        proof {
            assert(climbing(s, f, todo@.subrange(head as int, todo@.len() as int), list@, 0));
            assert forall|x: Id| list@.contains(x) <==> s.has(x) && ancestor(s, x, f) by {
                if list@.contains(x) {
                    let k = choose|k: int| 0 <= k < list@.len() && list@[k] == x;
                }
                if s.has(x) && ancestor(s, x, f) {
                    let path = choose|path: Seq<Id>| leads(s, path, x, f);
                    assert forall|a: Id, p: Id|
                        done@.contains(a) && #[trigger] s.parents[a].contains(p) implies done@.contains(
                        p,
                    ) by {
                        if !done@.contains(p) {
                            let i = choose|i: int| head <= i < todo@.len() && todo@[i] == p;
                        }
                    }
                    lemma_closed_complete(s, f, done@, path);
                    lemma_not_own_ancestor(s, f);
                }
            }
        }
        list
    }
}

} // verus!
