//! Recording verdicts and passing them on to the goals above.

use crate::collections::{Id, IdSet};
use crate::search::graph::{inference_views, Search};
use crate::search::view::{lemma_decide, lemma_unknown_fewer, lemma_unknown_finite};
use crate::status::Status;
use vstd::prelude::*;

verus! {

broadcast use vstd::std_specs::hash::group_hash_axioms;

impl Search {
    /// Gives the goal `f` the verdict `status`; with `force`, as a verdict
    /// from outside.
    fn write_status(&mut self, f: Id, status: Status, Ghost(force): Ghost<bool>)
        requires
            old(self)@.has(f),
        ensures
            final(self)@.same_shape(old(self)@),
            final(self)@.status == old(self)@.status.insert(f, status),
            final(self)@.forced == if force {
                old(self)@.forced.insert(f)
            } else {
                old(self)@.forced
            },
    {
        proof {
            self.lemma_view();
        }
        let ghost before = self@;
        self.status.insert(f, status);
        proof {
            if force {
                self.forced = Ghost(self.forced@.insert(f));
            }
            self.lemma_view();
            assert(self@.parents =~= before.parents);
            assert(self@.children =~= before.children);
            assert(self@.status.dom() =~= before.status.dom());
        }
    }

    /// The verdict on an inference: the product of the verdicts on its
    /// members.
    fn inference_status(&self, inference: &IdSet) -> (status: Status)
        requires
            forall|j: int| 0 <= j < inference@.len() ==> self@.has(inference@[j]),
        ensures
            status == self@.product(inference@),
    {
        let n = inference.len();
        let mut total = Status::Unsat;
        let mut j: usize = 0;
        let ghost statuses = self@.statuses(inference@);
        while j < n
            invariant
                n == inference@.len(),
                j <= n,
                statuses == self@.statuses(inference@),
                forall|x: int| 0 <= x < inference@.len() ==> self@.has(inference@[x]),
                total == Status::product_of(statuses.subrange(0, j as int)),
            decreases n - j,
        {
            proof {
                assert(statuses.subrange(0, j + 1).drop_last() =~= statuses.subrange(0, j as int));
            }
            total = total * self.node_status(inference.at(j));
            j += 1;
        }
        proof {
            assert(statuses.subrange(0, n as int) =~= statuses);
        }
        total
    }

    /// The verdict that its inferences give on the goal `f`: `Unsat` for
    /// the goal `F`, expanded or not, else the sum of the verdicts on the
    /// inferences of the expanded goal.
    pub fn computed_status(&self, f: Id) -> (status: Status)
        requires
            self@.shaped(),
            self@.has(f),
            self@.expanded(f) || self@.trivial[f],
        ensures
            status == self@.computed(f),
    {
        proof {
            self.lemma_view();
            assert(self@.trivial.contains_key(f));
        }
        if *self.trivial.get(&f).unwrap() {
            return Status::Unsat;
        }
        let list = self.children.get(&f).unwrap();
        let n = list.len();
        let mut total = Status::Sat;
        let mut i: usize = 0;
        let ghost products = self@.products(f);
        while i < n
            invariant
                n == list@.len(),
                i <= n,
                self@.shaped(),
                self@.expanded(f),
                inference_views(list@) == self@.children[f],
                products == self@.products(f),
                total == Status::sum_of(products.subrange(0, i as int)),
            decreases n - i,
        {
            proof {
                assert(products.subrange(0, i + 1).drop_last() =~= products.subrange(0, i as int));
                let inference = self@.children[f][i as int];
                assert(inference == list@[i as int]@);
                assert forall|j: int| 0 <= j < inference.len() implies self@.has(
                    inference[j],
                ) by {
                    assert(inference.contains(inference[j]));
                    assert(self@.edge(f, inference[j]));
                }
            }
            total = total + self.inference_status(&list[i]);
            i += 1;
        }
        proof {
            assert(products.subrange(0, n as int) =~= products);
        }
        total
    }

    /// Passes final verdicts on: each goal of `queue` that is `Unknown` and
    /// whose inferences give a final verdict gets that verdict, and the
    /// goals that it was inferred from are looked at in turn.
    pub(crate) fn propagate_status(&mut self, queue: Vec<Id>)
        requires
            old(self)@.shaped(),
            old(self)@.pending(queue@),
            forall|i: int| 0 <= i < queue@.len() ==> old(self)@.has(queue@[i]),
        ensures
            final(self).wf(),
            final(self)@.same_shape(old(self)@),
            final(self)@.forced == old(self)@.forced,
            final(self)@.refines(old(self)@),
    {
        let mut queue = queue;
        proof {
            lemma_unknown_finite(self@);
        }
        while queue.len() > 0
            invariant
                self@.shaped(),
                self@.pending(queue@),
                forall|i: int| 0 <= i < queue@.len() ==> self@.has(queue@[i]),
                self@.same_shape(old(self)@),
                self@.forced == old(self)@.forced,
                self@.refines(old(self)@),
                self@.unknown().finite(),
            decreases self@.unknown().len(), queue@.len(),
        {
            let ghost before = self@;
            let ghost waiting = queue@;
            let n = queue.pop().unwrap();
            let ghost rest = queue@;
            proof {
                assert(waiting[waiting.len() - 1] == n);
                assert forall|x: Id| waiting.contains(x) && x != n implies rest.contains(x) by {
                    let k = choose|k: int| 0 <= k < waiting.len() && waiting[k] == x;
                    assert(rest[k] == x);
                }
            }
            let mut decided = false;
            if !self.node_status(n).is_known() {
                if self.node_children(n).is_some() {
                    let computed = self.computed_status(n);
                    if computed.is_known() {
                        let mut parents = self.node_parents(n).clone();
                        let ghost above = parents@;
                        self.write_status(n, computed, Ghost(false));
                        queue.append(&mut parents);
                        decided = true;
                        proof {
                            let s = self@;
                            assert(before.has(n));
                            assert(!before.forced.contains(n)) by {
                                if before.forced.contains(n) {
                                    assert(before.status[n].known());
                                }
                            }
                            assert forall|x: Id| rest.contains(x) implies queue@.contains(x) by {
                                let k = choose|k: int| 0 <= k < rest.len() && rest[k] == x;
                                assert(queue@[k] == x);
                            }
                            assert forall|x: Id| above.contains(x) implies queue@.contains(x) by {
                                let k = choose|k: int| 0 <= k < above.len() && above[k] == x;
                                assert(queue@[rest.len() + k] == x);
                            }
                            lemma_decide(before, s, n, waiting, queue@);
                            lemma_unknown_fewer(before, s, n);
                            assert forall|i: int| 0 <= i < queue@.len() implies s.has(queue@[i]) by {
                                if i >= rest.len() {
                                    let p = above[i - rest.len()];
                                    assert(before.parents[n].contains(p));
                                    assert(before.edge(p, n));
                                } else {
                                    assert(queue@[i] == rest[i]);
                                    assert(before.has(waiting[i]));
                                }
                                assert(s.status.dom().contains(queue@[i]) == before.status.dom().contains(
                                    queue@[i],
                                ));
                            }
                            assert forall|x: Id|
                                old(self)@.has(x) && old(self)@.status[x].known() implies #[trigger] s.status[x]
                                == old(self)@.status[x] by {
                                assert(before.status[x] == old(self)@.status[x]);
                            }
                        }
                    }
                }
            }
            proof {
                if !decided {
                    let s = self@;
                    assert(s == before);
                    assert forall|x: Id|
                        s.has(x) && !s.forced.contains(x) implies #[trigger] s.status[x] == s.target(
                        x,
                    ) || (s.status[x] == Status::Unknown && s.expanded(x) && rest.contains(
                        x,
                    )) by {
                        if x != n && waiting.contains(x) {
                            assert(rest.contains(x));
                        }
                    }
                }
            }
        }
        proof {
            let s = self@;
            assert forall|n: Id| s.has(n) && !s.forced.contains(n) implies #[trigger] s.status[n]
                == (if s.expanded(n) {
                s.computed(n)
            } else {
                s.initial(n)
            }) by {
                assert(!queue@.contains(n));
                assert(s.status[n] == s.target(n));
            }
        }
    }

    /// Records the verdict `status` on the goal `f`, where it comes from
    /// outside the search.
    ///
    /// A goal that has a final verdict keeps it. A goal that is `Unknown`
    /// gets the verdict, if it is a final one, and the goals above it then
    /// get the verdicts that their inferences give. No final verdict
    /// changes.
    pub fn set_status(&mut self, f: Id, status: Status)
        requires
            old(self).wf(),
            old(self)@.has(f),
        ensures
            final(self).wf(),
            final(self)@.same_shape(old(self)@),
            final(self)@.keeps_verdicts(old(self)@),
            final(self)@.refines(old(self)@),
            final(self)@.status[f] == if old(self)@.status[f].known() {
                old(self)@.status[f]
            } else {
                status
            },
            final(self)@.forced == if !old(self)@.status[f].known() && status.known() {
                old(self)@.forced.insert(f)
            } else {
                old(self)@.forced
            },
    {
        let ghost before = self@;
        let current = self.node_status(f);
        if !current.is_known() && status.is_known() {
            let parents = self.node_parents(f).clone();
            self.write_status(f, status, Ghost(true));
            proof {
                let s = self@;
                assert forall|n: Id|
                    before.has(n) && !before.forced.contains(n) implies #[trigger] before.status[n]
                    == before.target(n) || (before.status[n] == Status::Unknown && before.expanded(
                    n,
                ) && Seq::<Id>::empty().contains(n)) by {}
                assert(before.pending(Seq::<Id>::empty()));
                lemma_decide(before, s, f, Seq::<Id>::empty(), parents@);
                assert forall|i: int| 0 <= i < parents@.len() implies s.has(parents@[i]) by {
                    assert(before.parents[f].contains(parents@[i]));
                    assert(before.edge(parents@[i], f));
                    assert(s.status.dom().contains(parents@[i]) == before.status.dom().contains(
                        parents@[i],
                    ));
                }
            }
            let ghost middle = self@;
            self.propagate_status(parents);
            proof {
                let s = self@;
                assert forall|n: Id|
                    before.has(n) && before.status[n].known() implies s.has(n)
                    && #[trigger] s.status[n] == before.status[n] by {
                    assert(middle.status[n] == before.status[n]);
                    assert(s.status.dom().contains(n) == before.status.dom().contains(n));
                }
                assert(middle.status[f].known());
                assert(s.status[f] == middle.status[f]);
            }
        } else {
            proof {
                assert forall|n: Id|
                    before.has(n) && before.status[n].known() implies self@.has(n)
                    && #[trigger] self@.status[n] == before.status[n] by {}
            }
        }
    }
}

} // verus!
