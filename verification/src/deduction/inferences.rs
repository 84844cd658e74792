//! A collection of inferences, each kept once.

use crate::collections::{ascending, Id, IdSet};
use crate::store::StoreView;
use vstd::prelude::*;

verus! {

/// Inferences in the order in which they were found, none of them twice.
pub struct Inferences {
    list: Vec<IdSet>,
}

impl View for Inferences {
    type V = Seq<Seq<Id>>;

    closed spec fn view(&self) -> Seq<Seq<Id>> {
        Seq::new(self.list@.len(), |i: int| self.list@[i]@)
    }
}

/// Whether every member of every inference is a formula of the store.
pub open spec fn all_formulae(s: StoreView, list: Seq<Seq<Id>>) -> bool {
    forall|i: int, j: int|
        0 <= i < list.len() && 0 <= j < list[i].len() ==> (#[trigger] list[i][j])
            < s.formulae.len()
}

/// Whether `new` holds all that `old` holds, at the same places.
pub open spec fn continues(old: Seq<Seq<Id>>, new: Seq<Seq<Id>>) -> bool {
    old.len() <= new.len() && forall|i: int| 0 <= i < old.len() ==> new[i] == old[i]
}

impl Inferences {
    /// The invariant of the collection: every inference is a set, and no
    /// inference is held twice.
    pub closed spec fn wf(&self) -> bool {
        &&& forall|i: int| 0 <= i < self.list@.len() ==> (#[trigger] self.list@[i]).wf()
        &&& forall|i: int, j: int|
            0 <= i < j < self.list@.len() ==> self.list@[i]@ != self.list@[j]@
    }

    /// What the invariant says of the view: every inference is ascending,
    /// and no two are equal.
    pub proof fn lemma_wf(&self)
        requires
            self.wf(),
        ensures
            forall|i: int| 0 <= i < self@.len() ==> ascending(#[trigger] self@[i]),
            forall|i: int, j: int| 0 <= i < j < self@.len() ==> self@[i] != self@[j],
    {
        assert forall|i: int| 0 <= i < self@.len() implies ascending(#[trigger] self@[i]) by {
            assert(self.list@[i].wf());
        }
    }

    /// An empty collection.
    pub fn new() -> (inferences: Self)
        ensures
            inferences.wf(),
            inferences@.len() == 0,
    {
        Inferences { list: Vec::new() }
    }

    /// The number of inferences.
    pub fn len(&self) -> (n: usize)
        ensures
            n == self@.len(),
    {
        self.list.len()
    }

    /// The inference at position `i`.
    pub fn get(&self, i: usize) -> (inference: &IdSet)
        requires
            self.wf(),
            i < self@.len(),
        ensures
            inference.wf(),
            inference@ == self@[i as int],
    {
        &self.list[i]
    }

    /// Whether `inference` is held.
    pub fn contains(&self, inference: &IdSet) -> (found: bool)
        ensures
            found == self@.contains(inference@),
    {
        let n = self.list.len();
        let mut i: usize = 0;
        while i < n
            invariant
                n == self.list@.len(),
                i <= n,
                forall|j: int| 0 <= j < i ==> self@[j] != inference@,
            decreases n - i,
        {
            if self.list[i].same(inference) {
                proof {
                    assert(self@[i as int] == inference@);
                }
                return true;
            }
            i += 1;
        }
        false
    }

    /// Adds `inference` unless it is held already.
    pub fn insert(&mut self, inference: IdSet)
        requires
            old(self).wf(),
            inference.wf(),
        ensures
            final(self).wf(),
            old(self)@.contains(inference@) ==> final(self)@ == old(self)@,
            !old(self)@.contains(inference@) ==> final(self)@ == old(self)@.push(inference@),
            continues(old(self)@, final(self)@),
            final(self)@.contains(inference@),
    {
        if !self.contains(&inference) {
            let ghost before = self@;
            let ghost added = inference@;
            self.list.push(inference);
            proof {
                assert(self@ =~= before.push(added));
                assert(self@[before.len() as int] == added);
                assert forall|i: int, j: int| 0 <= i < j < self.list@.len() implies self.list@[i]@
                    != self.list@[j]@ by {
                    if j == before.len() {
                        assert(before[i] == self.list@[i]@);
                        assert(before.contains(before[i]));
                    }
                }
            }
        }
    }

    /// The inferences, in the order in which they were found.
    pub fn into_vec(self) -> (list: Vec<IdSet>)
        requires
            self.wf(),
        ensures
            list@.len() == self@.len(),
            forall|i: int| 0 <= i < list@.len() ==> (#[trigger] list@[i]).wf() && list@[i]@ == self@[i],
    {
        self.list
    }
}

} // verus!
