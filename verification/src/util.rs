//! A map that can be read in both directions.

use std::collections::HashMap;
use std::hash::Hash;
use vstd::prelude::*;
use vstd::std_specs::hash::*;

verus! {

broadcast use vstd::std_specs::hash::group_hash_axioms;

/// Two maps kept side by side: one from left values to right values, one
/// from right values back to left values. Every insertion goes to both.
pub struct BiMap<A, B> where A: Copy + Eq + Hash, B: Copy + Eq + Hash {
    forward: HashMap<A, B>,
    back: HashMap<B, A>,
}

impl<A, B> BiMap<A, B> where A: Copy + Eq + Hash, B: Copy + Eq + Hash {
    /// The map from left values to right values.
    pub closed spec fn forward_map(&self) -> Map<A, B> {
        self.forward@
    }

    /// The map from right values to left values.
    pub closed spec fn back_map(&self) -> Map<B, A> {
        self.back@
    }

    /// Both maps are finite.
    pub proof fn lemma_finite(&self)
        ensures
            self.forward_map().dom().finite(),
            self.back_map().dom().finite(),
    {
    }

    /// An empty map.
    pub fn new() -> (map: Self)
        ensures
            map.forward_map() == Map::<A, B>::empty(),
            map.back_map() == Map::<B, A>::empty(),
    {
        BiMap { forward: HashMap::new(), back: HashMap::new() }
    }

    /// Relates `left` and `right`: afterwards `left` leads to `right` and
    /// `right` leads back to `left`, whatever either led to before.
    pub fn insert(&mut self, left: &A, right: &B)
        requires
            obeys_key_model::<A>(),
            obeys_key_model::<B>(),
        ensures
            final(self).forward_map() == old(self).forward_map().insert(*left, *right),
            final(self).back_map() == old(self).back_map().insert(*right, *left),
    {
        self.forward.insert(*left, *right);
        self.back.insert(*right, *left);
    }

    /// What `left` leads to, if anything.
    pub fn forward(&self, left: &A) -> (right: Option<&B>)
        requires
            obeys_key_model::<A>(),
        ensures
            match right {
                Some(right) => self.forward_map().contains_key(*left) && *right
                    == self.forward_map()[*left],
                None => !self.forward_map().contains_key(*left),
            },
    {
        self.forward.get(left)
    }

    /// What `right` leads back to, if anything.
    pub fn back(&self, right: &B) -> (left: Option<&A>)
        requires
            obeys_key_model::<B>(),
        ensures
            match left {
                Some(left) => self.back_map().contains_key(*right) && *left
                    == self.back_map()[*right],
                None => !self.back_map().contains_key(*right),
            },
    {
        self.back.get(right)
    }

    /// The number of left values that lead somewhere.
    pub fn len(&self) -> (n: usize)
        requires
            obeys_key_model::<A>(),
        ensures
            n == self.forward_map().len(),
    {
        self.forward.len()
    }
}

} // verus!
