//! Every inference of the search graph is a deduction of its goal.
//!
//! This holds of the graph with a goal alone, and every step of the search
//! keeps it. So each goal of a refutation but the root is a member of a
//! deduction of a goal listed before it.

use crate::collections::Id;
use crate::deduction::engine::{
    is_deduction,
    is_inference,
    lemma_simplified_image_extends,
    simplified_image,
};
use crate::deduction::making::belongs;
use crate::deduction::rules::{complete_rule, lemma_complete_rule_extends, Instance};
use crate::deduction::weakening::{is_weakening, lemma_weakened_extends, weakened, Weakening};
use crate::search::expansion::{kept_of, lemma_kept_of, made_step, stepped};
use crate::search::growth::lineage;
use crate::search::view::SearchView;
use crate::store::StoreView;
use crate::symbol::Symbol;
use vstd::prelude::*;

verus! {

/// Whether `inf` holds the simplified members of an inference of `n`, for
/// some signature.
pub open spec fn deduced(s: StoreView, n: Id, inf: Seq<Id>) -> bool {
    exists|symbols: Seq<(Symbol, usize)>| is_deduction(s, symbols, n, inf)
}

/// Whether every inference of every goal of the graph is a deduction of
/// the goal.
pub open spec fn justified(g: SearchView, s: StoreView) -> bool {
    forall|n: Id, i: int|
        g.expanded(n) && 0 <= i < g.children[n].len() ==> deduced(s, n, #[trigger] g.children[n][i])
}

/// A deduction in a store is one in every store that extends it.
pub proof fn lemma_deduced_extends(old: StoreView, new: StoreView, n: Id, inf: Seq<Id>)
    requires
        old.wf(),
        new.wf(),
        new.extends(old),
        deduced(old, n, inf),
    ensures
        deduced(new, n, inf),
{
    let symbols = choose|symbols: Seq<(Symbol, usize)>| is_deduction(old, symbols, n, inf);
    let raw = choose|raw: Seq<Id>|
        is_inference(old, symbols, n, raw) && simplified_image(old, raw, inf);
    lemma_simplified_image_extends(old, new, raw, inf);
    if belongs(old, symbols, n, raw) {
        let k = choose|k: Instance| complete_rule(old, symbols, n, k, raw);
        lemma_complete_rule_extends(old, new, symbols, n, k, raw);
        assert(belongs(new, symbols, n, raw));
    } else {
        let w = choose|w: Id| is_weakening(old, n, w) && raw == seq![w];
        let k = choose|k: Weakening| weakened(old, n, k, w);
        lemma_weakened_extends(old, new, n, k, w);
        assert(is_weakening(new, n, w));
    }
    assert(is_inference(new, symbols, n, raw));
    assert(is_deduction(new, symbols, n, inf));
}

/// A graph without inferences is justified.
pub proof fn lemma_initial_justified(g: SearchView, s: StoreView)
    requires
        forall|n: Id| !g.expanded(n),
    ensures
        justified(g, s),
{
}

/// A graph with the inferences of a justified graph is justified, in every
/// store that extends the store.
pub proof fn lemma_same_justified(old: SearchView, new: SearchView, before: StoreView, after: StoreView)
    requires
        before.wf(),
        after.wf(),
        after.extends(before),
        justified(old, before),
        new.children == old.children,
    ensures
        justified(new, after),
{
    assert forall|n: Id, i: int| new.expanded(n) && 0 <= i < new.children[n].len() implies deduced(
        after,
        n,
        #[trigger] new.children[n][i],
    ) by {
        assert(deduced(before, n, old.children[n][i]));
        lemma_deduced_extends(before, after, n, old.children[n][i]);
    }
}

/// A step of the search keeps the graph justified.
pub proof fn lemma_step_justified(
    before: StoreView,
    after: StoreView,
    old: SearchView,
    new: SearchView,
    fresh: Seq<Id>,
)
    requires
        before.wf(),
        after.wf(),
        after.extends(before),
        justified(old, before),
        made_step(before, after, old, new, fresh),
    ensures
        justified(new, after),
{
    let w = choose|leaf: Id, list: Seq<Seq<Id>>| stepped(before, after, old, new, leaf, list, fresh);
    let leaf = w.0;
    let list = w.1;
    let kept = kept_of(list, lineage(old, leaf));
    lemma_kept_of(list, lineage(old, leaf));
    let symbols = choose|symbols: Seq<(Symbol, usize)>|
        crate::deduction::engine::is_signature(before, leaf, symbols) && (forall|i: int|
            0 <= i < list.len() ==> is_deduction(after, symbols, leaf, #[trigger] list[i]))
            && (forall|k: Instance| #[trigger]
            crate::deduction::rules::applicable(before, symbols, leaf, k)
                ==> crate::deduction::engine::deduced_complete(after, symbols, leaf, k, list))
            && (forall|k: Weakening| #[trigger]
            crate::deduction::weakening::weakenable(before, leaf, k)
                ==> crate::deduction::engine::deduced_weakening(after, leaf, k, list));
    assert forall|n: Id, i: int| new.expanded(n) && 0 <= i < new.children[n].len() implies deduced(
        after,
        n,
        #[trigger] new.children[n][i],
    ) by {
        if n == leaf {
            assert(new.children[n] == kept);
            assert(list.contains(kept[i]));
            let j = choose|j: int| 0 <= j < list.len() && list[j] == kept[i];
            assert(is_deduction(after, symbols, leaf, list[j]));
        } else {
            assert(old.expanded(n));
            assert(new.children[n] == old.children[n]);
            assert(deduced(before, n, old.children[n][i]));
            lemma_deduced_extends(before, after, n, old.children[n][i]);
        }
    }
}

/// In a justified graph, each goal of a refutation but the root is a
/// member of a deduction of a goal that the refutation lists before it.
pub proof fn lemma_refutation_derived(g: SearchView, s: StoreView, list: Seq<Id>, i: int)
    requires
        justified(g, s),
        g.is_refutation(list),
        0 < i < list.len(),
    ensures
        exists|j: int, inf: Seq<Id>|
            0 <= j < i && #[trigger] deduced(s, list[j], inf) && inf.contains(list[i]),
{
    assert(g.supported(list, i));
    let j = choose|j: int| 0 <= j < i && g.supports(#[trigger] list[j], list[i]);
    let n = list[j];
    let k = choose|k: int| #[trigger] g.first_refuted_at(n, k) && g.children[n][k].contains(list[i]);
    assert(g.refuted_at(n, k));
    assert(deduced(s, n, g.children[n][k]));
}

} // verus!
