//! The heuristic: an outside estimator that scores goals, and the record of
//! which goals it has been asked about.

use crate::collections::Id;
use crate::score::{Score, LIMIT};
use crate::text::same_text;
use std::collections::HashSet;
use vstd::prelude::*;

verus! {

broadcast use vstd::std_specs::hash::group_hash_axioms;

/// Which heuristic scores the goals when no estimator is connected.
#[derive(Clone, Copy, Debug, PartialEq, Eq, Structural)]
pub enum Heuristic {
    Null,
}

impl Heuristic {
    /// The heuristic named `x`: "null".
    pub fn parse(x: &str) -> (heuristic: Option<Heuristic>)
        ensures
            heuristic == if x@ == "null"@ {
                Some(Heuristic::Null)
            } else {
                None
            },
    {
        if same_text(x, "null") {
            Some(Heuristic::Null)
        } else {
            None
        }
    }
}

impl core::str::FromStr for Heuristic {
    type Err = ();

    fn from_str(x: &str) -> (heuristic: Result<Self, ()>)
        ensures
            heuristic == if x@ == "null"@ {
                Ok::<Heuristic, ()>(Heuristic::Null)
            } else {
                Err::<Heuristic, ()>(())
            },
    {
        match Heuristic::parse(x) {
            Some(heuristic) => Ok(heuristic),
            None => Err(()),
        }
    }
}

/// The scores of the heuristic that knows nothing: one half for each goal
/// of the batch.
pub fn score(batch: &Vec<Id>) -> (scores: Vec<Score>)
    ensures
        scores@.len() == batch@.len(),
        forall|i: int| 0 <= i < scores@.len() ==> scores@[i] == Score(0x3f00_0000),
{
    let mut scores: Vec<Score> = Vec::new();
    let n = batch.len();
    let mut i: usize = 0;
    while i < n
        invariant
            n == batch@.len(),
            i <= n,
            scores@.len() == i,
            forall|k: int| 0 <= k < i ==> scores@[k] == Score(0x3f00_0000),
        decreases n - i,
    {
        scores.push(Score::half());
        i += 1;
    }
    scores
}

/// The scores that the heuristic `which` gives to the goals of the batch,
/// one for each.
pub fn heuristic(which: Heuristic, batch: &Vec<Id>) -> (scores: Vec<Score>)
    ensures
        scores@.len() == batch@.len(),
        forall|i: int| 0 <= i < scores@.len() ==> scores@[i] == Score(0x3f00_0000),
{
    match which {
        Heuristic::Null => score(batch),
    }
}

/// The goals that the estimator has been asked about and has not answered
/// yet.
pub struct InFlight {
    asked: HashSet<Id>,
}

impl View for InFlight {
    type V = Set<Id>;

    closed spec fn view(&self) -> Set<Id> {
        self.asked@
    }
}

impl InFlight {
    /// No goal is asked about.
    pub fn new() -> (in_flight: InFlight)
        ensures
            in_flight@ == Set::<Id>::empty(),
    {
        InFlight { asked: HashSet::new() }
    }

    /// Notes that the estimator is asked about the goal `f`.
    pub fn sent(&mut self, f: Id)
        ensures
            final(self)@ == old(self)@.insert(f),
    {
        self.asked.insert(f);
    }

    /// Whether the estimator has been asked about `f` and has not answered.
    pub fn awaits(&self, f: Id) -> (yes: bool)
        ensures
            yes == self@.contains(f),
    {
        self.asked.contains(&f)
    }

    /// Takes the answer that the goal `id` has the score with the bits
    /// `bits`. An answer about a goal that was not asked about is dropped;
    /// so is one whose bits stand for no score, and the goal is still asked
    /// about.
    pub fn received(&mut self, id: Id, bits: u32) -> (scored: Option<(Id, Score)>)
        ensures
            scored == if old(self)@.contains(id) && bits < LIMIT {
                Some((id, Score(bits)))
            } else {
                None
            },
            final(self)@ == if old(self)@.contains(id) && bits < LIMIT {
                old(self)@.remove(id)
            } else {
                old(self)@
            },
    {
        if !self.asked.contains(&id) {
            return None;
        }
        match Score::new(bits) {
            Some(score) => {
                self.asked.remove(&id);
                Some((id, score))
            },
            None => None,
        }
    }
}

} // verus!
