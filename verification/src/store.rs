//! The store of hash-consed terms and formulae.
//!
//! Every term and every formula is kept once. Its identifier is its position
//! in the store, so identifiers are never reused, and the parts of a value
//! always have smaller identifiers than the value itself. Two identifiers are
//! equal exactly when the values they name are structurally equal.

use crate::collections::{ascending, Id, IdList};
use crate::formula::{Formula, FormulaView};
use crate::symbol::Symbol;
use crate::term::{Term, TermView};
use std::collections::HashMap;
use vstd::prelude::*;

verus! {

broadcast use vstd::std_specs::hash::group_hash_axioms;

/// Whether every identifier in `ids` is below `bound`.
pub open spec fn all_below(ids: Seq<Id>, bound: int) -> bool {
    forall|i: int| 0 <= i < ids.len() ==> ids[i] < bound
}

/// What a store holds: the terms and the formulae, each at its identifier.
pub struct StoreView {
    pub terms: Seq<TermView>,
    pub formulae: Seq<FormulaView>,
}

impl StoreView {
    /// Whether the arguments of `term` are identifiers below `bound`.
    pub open spec fn term_ok(self, term: TermView, bound: int) -> bool {
        match term {
            TermView::Var(_) => true,
            TermView::Fn(_, ts) => all_below(ts, bound),
        }
    }

    /// Whether the parts of `formula` are terms of this store and formulae
    /// with identifiers below `bound`, and its sets are in ascending order.
    pub open spec fn formula_ok(self, formula: FormulaView, bound: int) -> bool {
        match formula {
            FormulaView::T | FormulaView::F => true,
            FormulaView::Eq(ts) => ascending(ts) && all_below(ts, self.terms.len() as int),
            FormulaView::Prd(_, ts) => all_below(ts, self.terms.len() as int),
            FormulaView::Not(p) | FormulaView::All(p) | FormulaView::Ex(p) => p < bound,
            FormulaView::Imp(p, q) => p < bound && q < bound,
            FormulaView::Or(ps) | FormulaView::And(ps) | FormulaView::Eqv(ps) => ascending(ps)
                && all_below(ps, bound),
        }
    }

    /// The invariant of a store: parts come before wholes, and no value is
    /// held twice.
    pub open spec fn wf(self) -> bool {
        &&& forall|i: int|
            0 <= i < self.terms.len() ==> self.term_ok(#[trigger] self.terms[i], i)
        &&& forall|i: int|
            0 <= i < self.formulae.len() ==> self.formula_ok(#[trigger] self.formulae[i], i)
        &&& forall|i: int, j: int|
            0 <= i < j < self.terms.len() ==> self.terms[i] != self.terms[j]
        &&& forall|i: int, j: int|
            0 <= i < j < self.formulae.len() ==> self.formulae[i] != self.formulae[j]
    }

    /// Whether this store holds all that `old` holds, at the same identifiers.
    pub open spec fn extends(self, old: StoreView) -> bool {
        &&& old.terms.len() <= self.terms.len()
        &&& old.formulae.len() <= self.formulae.len()
        &&& forall|i: int| 0 <= i < old.terms.len() ==> self.terms[i] == old.terms[i]
        &&& forall|i: int| 0 <= i < old.formulae.len() ==> self.formulae[i] == old.formulae[i]
    }

    /// Whether `term` is held.
    pub open spec fn has_term(self, term: TermView) -> bool {
        exists|i: int| 0 <= i < self.terms.len() && self.terms[i] == term
    }

    /// Whether `formula` is held.
    pub open spec fn has_formula(self, formula: FormulaView) -> bool {
        exists|i: int| 0 <= i < self.formulae.len() && self.formulae[i] == formula
    }

    /// Whether `id` names the stored formula `formula`.
    pub open spec fn is(self, id: Id, formula: FormulaView) -> bool {
        id < self.formulae.len() && self.formulae[id as int] == formula
    }

    /// Whether `id` names the stored term `term`.
    pub open spec fn is_term(self, id: Id, term: TermView) -> bool {
        id < self.terms.len() && self.terms[id as int] == term
    }
}

/// Interning: structurally equal values have equal identifiers.
pub proof fn lemma_interning(s: StoreView, a: Id, b: Id)
    requires
        s.wf(),
    ensures
        a < s.terms.len() && b < s.terms.len() && s.terms[a as int] == s.terms[b as int] ==> a
            == b,
        a < s.formulae.len() && b < s.formulae.len() && s.formulae[a as int]
            == s.formulae[b as int] ==> a == b,
{
    if a < s.terms.len() && b < s.terms.len() && s.terms[a as int] == s.terms[b as int] {
        if a < b {
            assert(s.terms[a as int] != s.terms[b as int]);
        }
        if b < a {
            assert(s.terms[b as int] != s.terms[a as int]);
        }
    }
    if a < s.formulae.len() && b < s.formulae.len() && s.formulae[a as int]
        == s.formulae[b as int] {
        if a < b {
            assert(s.formulae[a as int] != s.formulae[b as int]);
        }
        if b < a {
            assert(s.formulae[b as int] != s.formulae[a as int]);
        }
    }
}

#[verifier::opaque]
spec fn mix(h: u64, x: u64) -> u64 {
    h.wrapping_mul(1099511628211u64).wrapping_add(x)
}

spec fn hash_ids(ids: Seq<Id>, seed: u64) -> u64
    decreases ids.len(),
{
    if ids.len() == 0 {
        seed
    } else {
        mix(hash_ids(ids.drop_last(), seed), ids.last() as u64)
    }
}

spec fn hash_symbol(symbol: Symbol, seed: u64) -> u64 {
    match symbol {
        Symbol::Original(n) => mix(mix(seed, 1), n as u64),
        Symbol::Introduced(n) => mix(mix(seed, 2), n as u64),
    }
}

spec fn hash_term(term: TermView) -> u64 {
    match term {
        TermView::Var(n) => mix(1, n as u64),
        TermView::Fn(f, ts) => hash_ids(ts, hash_symbol(f, 2)),
    }
}

spec fn hash_formula(formula: FormulaView) -> u64 {
    match formula {
        FormulaView::T => 1,
        FormulaView::F => 2,
        FormulaView::Eq(ts) => hash_ids(ts, 3),
        FormulaView::Prd(p, ts) => hash_ids(ts, hash_symbol(p, 4)),
        FormulaView::Not(p) => mix(5, p as u64),
        FormulaView::Imp(p, q) => mix(mix(6, p as u64), q as u64),
        FormulaView::Or(ps) => hash_ids(ps, 7),
        FormulaView::And(ps) => hash_ids(ps, 8),
        FormulaView::Eqv(ps) => hash_ids(ps, 9),
        FormulaView::All(p) => mix(10, p as u64),
        FormulaView::Ex(p) => mix(11, p as u64),
    }
}

fn mixed(h: u64, x: u64) -> (r: u64)
    ensures
        r == mix(h, x),
{
    reveal(mix);
    h.wrapping_mul(1099511628211u64).wrapping_add(x)
}

fn hashed_ids(ids: &IdList, seed: u64) -> (h: u64)
    ensures
        h == hash_ids(ids@, seed),
{
    let n = ids.len();
    let mut h = seed;
    let mut i: usize = 0;
    while i < n
        invariant
            n == ids@.len(),
            i <= n,
            h == hash_ids(ids@.subrange(0, i as int), seed),
        decreases n - i,
    {
        proof {
            assert(ids@.subrange(0, i + 1).drop_last() =~= ids@.subrange(0, i as int));
        }
        h = mixed(h, ids.at(i) as u64);
        i += 1;
    }
    proof {
        assert(ids@.subrange(0, n as int) =~= ids@);
    }
    h
}

fn hashed_symbol(symbol: Symbol, seed: u64) -> (h: u64)
    ensures
        h == hash_symbol(symbol, seed),
{
    match symbol {
        Symbol::Original(n) => mixed(mixed(seed, 1), n as u64),
        Symbol::Introduced(n) => mixed(mixed(seed, 2), n as u64),
    }
}

fn hashed_term(term: &Term) -> (h: u64)
    ensures
        h == hash_term(term@),
{
    match term {
        Term::Var(n) => mixed(1, *n as u64),
        Term::Fn(f, ts) => hashed_ids(ts, hashed_symbol(*f, 2)),
    }
}

fn hashed_formula(formula: &Formula) -> (h: u64)
    ensures
        h == hash_formula(formula@),
{
    match formula {
        Formula::T => 1,
        Formula::F => 2,
        Formula::Eq(ts) => hashed_ids(ts.as_list(), 3),
        Formula::Prd(p, ts) => hashed_ids(ts, hashed_symbol(*p, 4)),
        Formula::Not(p) => mixed(5, *p as u64),
        Formula::Imp(p, q) => mixed(mixed(6, *p as u64), *q as u64),
        Formula::Or(ps) => hashed_ids(ps.as_list(), 7),
        Formula::And(ps) => hashed_ids(ps.as_list(), 8),
        Formula::Eqv(ps) => hashed_ids(ps.as_list(), 9),
        Formula::All(p) => mixed(10, *p as u64),
        Formula::Ex(p) => mixed(11, *p as u64),
    }
}

/// Whether `id` is listed under `h`.
spec fn listed(buckets: Map<u64, Vec<Id>>, h: u64, id: Id) -> bool {
    buckets.contains_key(h) && buckets[h]@.contains(id)
}

/// For each hash, the identifiers of the values that have it.
struct Index {
    buckets: HashMap<u64, Vec<Id>>,
}

impl Index {
    /// Whether the index lists each of the identifiers `0..hashes.len()`
    /// under its hash, and nothing else.
    spec fn ok(&self, hashes: Seq<u64>) -> bool {
        &&& forall|id: Id|
            id < hashes.len() ==> #[trigger] listed(self.buckets@, hashes[id as int], id)
        &&& forall|h: u64, id: Id| #[trigger]
            listed(self.buckets@, h, id) ==> id < hashes.len() && hashes[id as int] == h
    }

    fn new() -> (index: Self)
        ensures
            index.ok(Seq::empty()),
    {
        Index { buckets: HashMap::new() }
    }

    /// The identifiers listed under `h`.
    fn bucket(&self, h: u64) -> (ids: Option<&Vec<Id>>)
        ensures
            match ids {
                Some(ids) => forall|id: Id| listed(self.buckets@, h, id) <==> ids@.contains(id),
                None => forall|id: Id| !listed(self.buckets@, h, id),
            },
    {
        self.buckets.get(&h)
    }

    /// Lists the next identifier under `h`.
    fn add(&mut self, h: u64, id: Id, Ghost(hashes): Ghost<Seq<u64>>)
        requires
            old(self).ok(hashes),
            id == hashes.len(),
        ensures
            final(self).ok(hashes.push(h)),
    {
        let ghost before = self.buckets@;
        let mut ids = match self.buckets.remove(&h) {
            Some(ids) => ids,
            None => Vec::new(),
        };
        let ghost old_ids = ids@;
        ids.push(id);
        let ghost new_ids = ids@;
        self.buckets.insert(h, ids);
        proof {
            let after = self.buckets@;
            let grown = hashes.push(h);
            assert(after.contains_key(h) && after[h]@ == new_ids);
            assert(before.contains_key(h) ==> old_ids == before[h]@);
            assert(!before.contains_key(h) ==> old_ids.len() == 0);
            assert forall|x: Id| x < grown.len() implies #[trigger] listed(
                after,
                grown[x as int],
                x,
            ) by {
                if x < hashes.len() {
                    let g = hashes[x as int];
                    assert(listed(before, hashes[x as int], x));
                    if g == h {
                        let k = choose|k: int| 0 <= k < old_ids.len() && old_ids[k] == x;
                        assert(new_ids[k] == x);
                    } else {
                        assert(after.contains_key(g) && after[g] == before[g]);
                    }
                } else {
                    assert(new_ids[old_ids.len() as int] == id);
                }
            }
            assert forall|g: u64, x: Id| #[trigger] listed(after, g, x) implies x < grown.len()
                && grown[x as int] == g by {
                if g == h {
                    let k = choose|k: int| 0 <= k < new_ids.len() && new_ids[k] == x;
                    if k < old_ids.len() {
                        assert(old_ids[k] == x);
                        assert(listed(before, h, x));
                    }
                } else {
                    assert(before.contains_key(g) && after[g] == before[g]);
                    assert(listed(before, g, x));
                }
            }
        }
    }
}

/// The store of terms and formulae.
pub struct Store {
    terms: Vec<Term>,
    formulae: Vec<Formula>,
    term_index: Index,
    formula_index: Index,
}

impl View for Store {
    type V = StoreView;

    closed spec fn view(&self) -> StoreView {
        StoreView {
            terms: Seq::new(self.terms@.len(), |i: int| self.terms@[i]@),
            formulae: Seq::new(self.formulae@.len(), |i: int| self.formulae@[i]@),
        }
    }
}

impl Store {
    /// The hash of each term held.
    spec fn term_hashes(&self) -> Seq<u64> {
        Seq::new(self.terms@.len(), |i: int| hash_term(self.terms@[i]@))
    }

    /// The hash of each formula held.
    spec fn formula_hashes(&self) -> Seq<u64> {
        Seq::new(self.formulae@.len(), |i: int| hash_formula(self.formulae@[i]@))
    }

    /// Whether the store's look-up tables agree with what it holds.
    pub closed spec fn indexed(&self) -> bool {
        &&& self.term_index.ok(self.term_hashes())
        &&& self.formula_index.ok(self.formula_hashes())
    }

    /// The invariant of a store.
    pub open spec fn wf(&self) -> bool {
        self@.wf() && self.indexed()
    }

    /// A store that holds nothing.
    pub fn new() -> (store: Self)
        ensures
            store.wf(),
            store@.terms.len() == 0,
            store@.formulae.len() == 0,
    {
        let store = Store {
            terms: Vec::new(),
            formulae: Vec::new(),
            term_index: Index::new(),
            formula_index: Index::new(),
        };
        proof {
            assert(store.term_hashes() =~= Seq::<u64>::empty());
            assert(store.formula_hashes() =~= Seq::<u64>::empty());
        }
        store
    }

    /// The number of terms held.
    pub fn term_count(&self) -> (n: usize)
        ensures
            n == self@.terms.len(),
    {
        self.terms.len()
    }

    /// The number of formulae held.
    pub fn formula_count(&self) -> (n: usize)
        ensures
            n == self@.formulae.len(),
    {
        self.formulae.len()
    }

    /// The term that `id` names.
    pub fn term(&self, id: Id) -> (term: &Term)
        requires
            id < self@.terms.len(),
        ensures
            term@ == self@.terms[id as int],
    {
        &self.terms[id]
    }

    /// The formula that `id` names.
    pub fn formula(&self, id: Id) -> (formula: &Formula)
        requires
            id < self@.formulae.len(),
        ensures
            formula@ == self@.formulae[id as int],
    {
        &self.formulae[id]
    }

    /// What the view holds, in terms of the vectors.
    proof fn lemma_view(&self)
        ensures
            self@.terms.len() == self.terms.len(),
            self@.formulae.len() == self.formulae.len(),
            forall|i: int| 0 <= i < self.terms.len() ==> self@.terms[i] == self.terms@[i]@,
            forall|i: int| 0 <= i < self.formulae.len() ==> self@.formulae[i] == self.formulae@[i]@,
            self.term_hashes().len() == self.terms.len(),
            self.formula_hashes().len() == self.formulae.len(),
            forall|i: int|
                0 <= i < self.terms.len() ==> self.term_hashes()[i] == hash_term(self@.terms[i]),
            forall|i: int|
                0 <= i < self.formulae.len() ==> self.formula_hashes()[i] == hash_formula(
                    self@.formulae[i],
                ),
    {
    }

    /// The identifier of a term that is held already.
    fn find_term(&self, term: &Term, h: u64) -> (found: Option<Id>)
        requires
            self.indexed(),
            h == hash_term(term@),
        ensures
            match found {
                Some(id) => self@.is_term(id, term@),
                None => !self@.has_term(term@),
            },
    {
        let ghost hashes = self.term_hashes();
        let ghost buckets = self.term_index.buckets@;
        let mut found: Option<Id> = None;
        let ghost mut listing: Seq<Id> = Seq::empty();
        match self.term_index.bucket(h) {
            None => {},
            Some(ids) => {
                proof {
                    listing = ids@;
                }
                let mut k: usize = 0;
                while k < ids.len() && found.is_none()
                    invariant
                        self.term_index.ok(hashes),
                        hashes.len() == self.terms@.len(),
                        buckets == self.term_index.buckets@,
                        forall|id: Id| listed(buckets, h, id) <==> ids@.contains(id),
                        k <= ids.len(),
                        forall|j: int|
                            0 <= j < k && found.is_none() ==> (#[trigger] ids@[j])
                                < self.terms@.len() && self.terms@[ids@[j] as int]@ != term@,
                        match found {
                            Some(id) => id < self.terms@.len() && self.terms@[id as int]@ == term@,
                            None => true,
                        },
                    decreases ids.len() - k,
                {
                    let id = ids[k];
                    proof {
                        assert(ids@.contains(id));
                        assert(listed(buckets, h, id));
                    }
                    if self.terms[id].same(term) {
                        found = Some(id);
                    }
                    k += 1;
                }
            },
        }
        proof {
            self.lemma_view();
            if found.is_none() && self@.has_term(term@) {
                let i = choose|i: int| 0 <= i < self@.terms.len() && self@.terms[i] == term@;
                let x = i as usize;
                assert(hashes[x as int] == h);
                assert(listed(buckets, hashes[x as int], x));
                assert(listing.contains(x));
                let j = choose|j: int| 0 <= j < listing.len() && listing[j] == x;
                assert(self.terms@[listing[j] as int]@ != term@);
            }
        }
        found
    }

    /// The identifier of a formula that is held already.
    fn find_formula(&self, formula: &Formula, h: u64) -> (found: Option<Id>)
        requires
            self.indexed(),
            h == hash_formula(formula@),
        ensures
            match found {
                Some(id) => self@.is(id, formula@),
                None => !self@.has_formula(formula@),
            },
    {
        let ghost hashes = self.formula_hashes();
        let ghost buckets = self.formula_index.buckets@;
        let mut found: Option<Id> = None;
        let ghost mut listing: Seq<Id> = Seq::empty();
        match self.formula_index.bucket(h) {
            None => {},
            Some(ids) => {
                proof {
                    listing = ids@;
                }
                let mut k: usize = 0;
                while k < ids.len() && found.is_none()
                    invariant
                        self.formula_index.ok(hashes),
                        hashes.len() == self.formulae@.len(),
                        buckets == self.formula_index.buckets@,
                        forall|id: Id| listed(buckets, h, id) <==> ids@.contains(id),
                        k <= ids.len(),
                        forall|j: int|
                            0 <= j < k && found.is_none() ==> (#[trigger] ids@[j])
                                < self.formulae@.len() && self.formulae@[ids@[j] as int]@
                                != formula@,
                        match found {
                            Some(id) => id < self.formulae@.len() && self.formulae@[id as int]@
                                == formula@,
                            None => true,
                        },
                    decreases ids.len() - k,
                {
                    let id = ids[k];
                    proof {
                        assert(ids@.contains(id));
                        assert(listed(buckets, h, id));
                    }
                    if self.formulae[id].same(formula) {
                        found = Some(id);
                    }
                    k += 1;
                }
            },
        }
        proof {
            self.lemma_view();
            if found.is_none() && self@.has_formula(formula@) {
                let i = choose|i: int|
                    0 <= i < self@.formulae.len() && self@.formulae[i] == formula@;
                let x = i as usize;
                assert(hashes[x as int] == h);
                assert(listed(buckets, hashes[x as int], x));
                assert(listing.contains(x));
                let j = choose|j: int| 0 <= j < listing.len() && listing[j] == x;
                assert(self.formulae@[listing[j] as int]@ != formula@);
            }
        }
        found
    }

    /// The identifier under which `formula` is held, if it is held.
    pub fn lookup(&self, formula: &Formula) -> (found: Option<Id>)
        requires
            self.wf(),
        ensures
            match found {
                Some(id) => self@.is(id, formula@),
                None => !self@.has_formula(formula@),
            },
    {
        let h = hashed_formula(formula);
        self.find_formula(formula, h)
    }

    /// The identifier of `term`: the one it has already if the store holds
    /// a structurally equal term, else the next free one, under which the
    /// term is then kept.
    pub fn intern_term(&mut self, term: Term) -> (id: Id)
        requires
            old(self).wf(),
            old(self)@.term_ok(term@, old(self)@.terms.len() as int),
        ensures
            final(self).wf(),
            final(self)@.extends(old(self)@),
            final(self)@.is_term(id, term@),
            final(self)@.formulae == old(self)@.formulae,
            old(self)@.has_term(term@) ==> final(self)@ == old(self)@,
            !old(self)@.has_term(term@) ==> id == old(self)@.terms.len() && final(self)@.terms
                == old(self)@.terms.push(term@),
    {
        let h = hashed_term(&term);
        match self.find_term(&term, h) {
            Some(id) => id,
            None => {
                let id = self.terms.len();
                let ghost before = self@;
                let ghost hashes = self.term_hashes();
                let ghost view = term@;
                self.term_index.add(h, id, Ghost(hashes));
                self.terms.push(term);
                proof {
                    let after = self@;
                    assert(after.terms =~= before.terms.push(view));
                    assert(after.formulae =~= before.formulae);
                    assert(self.term_hashes() =~= hashes.push(h));
                    assert(self.formula_hashes() =~= old(self).formula_hashes());
                    assert forall|i: int| 0 <= i < after.terms.len() implies after.term_ok(
                        #[trigger] after.terms[i],
                        i,
                    ) by {
                        if i < before.terms.len() {
                            assert(before.term_ok(before.terms[i], i));
                        }
                    }
                    assert forall|i: int| 0 <= i < after.formulae.len() implies after.formula_ok(
                        #[trigger] after.formulae[i],
                        i,
                    ) by {
                        assert(before.formula_ok(before.formulae[i], i));
                    }
                    assert forall|i: int, j: int| 0 <= i < j < after.terms.len() implies after.terms[i]
                        != after.terms[j] by {
                        if j < before.terms.len() {
                            assert(before.terms[i] != before.terms[j]);
                        }
                    }
                    assert(after.wf());
                }
                id
            },
        }
    }

    /// The identifier of `formula`: the one it has already if the store
    /// holds a structurally equal formula, else the next free one, under
    /// which the formula is then kept.
    pub fn intern(&mut self, formula: Formula) -> (id: Id)
        requires
            old(self).wf(),
            old(self)@.formula_ok(formula@, old(self)@.formulae.len() as int),
        ensures
            final(self).wf(),
            final(self)@.extends(old(self)@),
            final(self)@.is(id, formula@),
            final(self)@.terms == old(self)@.terms,
            old(self)@.has_formula(formula@) ==> final(self)@ == old(self)@,
            !old(self)@.has_formula(formula@) ==> id == old(self)@.formulae.len()
                && final(self)@.formulae == old(self)@.formulae.push(formula@),
    {
        let h = hashed_formula(&formula);
        match self.find_formula(&formula, h) {
            Some(id) => id,
            None => {
                let id = self.formulae.len();
                let ghost before = self@;
                let ghost hashes = self.formula_hashes();
                let ghost view = formula@;
                self.formula_index.add(h, id, Ghost(hashes));
                self.formulae.push(formula);
                proof {
                    let after = self@;
                    assert(after.formulae =~= before.formulae.push(view));
                    assert(after.terms =~= before.terms);
                    assert(self.formula_hashes() =~= hashes.push(h));
                    assert(self.term_hashes() =~= old(self).term_hashes());
                    assert forall|i: int| 0 <= i < after.terms.len() implies after.term_ok(
                        #[trigger] after.terms[i],
                        i,
                    ) by {
                        assert(before.term_ok(before.terms[i], i));
                    }
                    assert forall|i: int| 0 <= i < after.formulae.len() implies after.formula_ok(
                        #[trigger] after.formulae[i],
                        i,
                    ) by {
                        if i < before.formulae.len() {
                            assert(before.formula_ok(before.formulae[i], i));
                        }
                    }
                    assert forall|i: int, j: int|
                        0 <= i < j < after.formulae.len() implies after.formulae[i]
                        != after.formulae[j] by {
                        if j < before.formulae.len() {
                            assert(before.formulae[i] != before.formulae[j]);
                        }
                    }
                    assert(after.wf());
                }
                id
            },
        }
    }
}

} // verus!
