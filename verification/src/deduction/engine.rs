//! All the inferences of a goal, with their members simplified.

use crate::collections::{Id, IdSet};
use crate::deduction::complete::complete;
use crate::deduction::inferences::{all_formulae, continues, Inferences};
use crate::deduction::making::{belongs, listed, single};
use crate::deduction::rules::{
    applicable, complete_rule, lemma_complete_rule_extends, Instance,
};
use crate::deduction::weakening::{
    has_weakening, is_weakening, lemma_weakened_extends, weaken, weakenable, weakened,
    weakenings, Weakening,
};
use crate::formula::Formula;
use crate::measure::lemma_weight_extends;
use crate::signature::mentions;
use crate::simplification::normal::{is_normal, lemma_normal_extends};
use crate::simplification::simplifier::simplify;
use crate::simplification::tame::{
    agrees, lemma_agrees_extends, lemma_sober_extends, lemma_sober_tame, sober,
};
use crate::store::{Store, StoreView};
use crate::substitution::held;
use crate::symbol::Symbol;
use vstd::prelude::*;

verus! {

/// Whether `symbols` are the function symbols of `f`, each once, with the
/// number of its arguments.
pub open spec fn is_signature(s: StoreView, f: Id, symbols: Seq<(Symbol, usize)>) -> bool {
    &&& symbols.no_duplicates()
    &&& forall|symbol: Symbol, arity: usize|
        symbols.contains((symbol, arity)) <==> mentions(s, f, symbol, arity, false)
}

/// Whether `z` is a simplified form of `g`: a normal formula that is `g`
/// itself or lighter than `g`, and that has the truth value of `g` under
/// every assignment if `g` is sober.
pub open spec fn simplified_to(s: StoreView, g: Id, z: Id) -> bool {
    &&& g < s.formulae.len()
    &&& z < s.formulae.len()
    &&& is_normal(s, z)
    &&& (z == g || s.weight(z) < s.weight(g))
    &&& (sober(s, g) ==> agrees(s, g, z))
}

/// Whether `inf` holds the simplified forms of the members of `raw`.
pub open spec fn simplified_image(s: StoreView, raw: Seq<Id>, inf: Seq<Id>) -> bool {
    &&& forall|g: Id| #[trigger]
        raw.contains(g) ==> exists|z: Id| inf.contains(z) && simplified_to(s, g, z)
    &&& forall|z: Id| #[trigger]
        held(inf, z) ==> exists|g: Id| raw.contains(g) && simplified_to(s, g, z)
}

/// Whether `raw` is an inference of `f`: one that the complete rules give
/// with the signature `symbols`, or a single weakening of `f`.
pub open spec fn is_inference(s: StoreView, symbols: Seq<(Symbol, usize)>, f: Id, raw: Seq<Id>) -> bool {
    belongs(s, symbols, f, raw) || exists|w: Id| is_weakening(s, f, w) && raw == seq![w]
}

/// Whether `inf` holds the simplified members of an inference of `f`.
pub open spec fn is_deduction(s: StoreView, symbols: Seq<(Symbol, usize)>, f: Id, inf: Seq<Id>) -> bool {
    exists|raw: Seq<Id>| is_inference(s, symbols, f, raw) && simplified_image(s, raw, inf)
}

/// Whether the simplified inference of the use `k` of the complete rules
/// for `f` is among `list`.
pub open spec fn deduced_complete(
    s: StoreView,
    symbols: Seq<(Symbol, usize)>,
    f: Id,
    k: Instance,
    list: Seq<Seq<Id>>,
) -> bool {
    exists|i: int, raw: Seq<Id>|
        0 <= i < list.len() && complete_rule(s, symbols, f, k, raw) && #[trigger] simplified_image(
            s,
            raw,
            list[i],
        )
}

/// Whether the simplified weakening of the use `k` of the weakening rules
/// for `f` is among `list`, as an inference of its own.
pub open spec fn deduced_weakening(s: StoreView, f: Id, k: Weakening, list: Seq<Seq<Id>>) -> bool {
    exists|i: int, w: Id|
        0 <= i < list.len() && #[trigger] weakened(s, f, k, w) && #[trigger] simplified_image(
            s,
            seq![w],
            list[i],
        )
}

/// Whether `list` holds the deductions of `f`: each of its inferences holds
/// the simplified members of an inference of `f`, and every use of a rule
/// that `f` has in the store `before` gives one of them.
pub open spec fn deductions_of(before: StoreView, s: StoreView, f: Id, list: Seq<Seq<Id>>) -> bool {
    exists|symbols: Seq<(Symbol, usize)>|
        is_signature(before, f, symbols) && (forall|i: int|
            0 <= i < list.len() ==> is_deduction(s, symbols, f, #[trigger] list[i])) && (forall|
            k: Instance,
        | #[trigger]
            applicable(before, symbols, f, k) ==> deduced_complete(s, symbols, f, k, list))
            && (forall|k: Weakening| #[trigger]
            weakenable(before, f, k) ==> deduced_weakening(s, f, k, list))
}

/// A simplified form in a store is one in every store that extends it.
pub proof fn lemma_simplified_to_extends(old: StoreView, new: StoreView, g: Id, z: Id)
    requires
        old.wf(),
        new.wf(),
        new.extends(old),
        simplified_to(old, g, z),
    ensures
        simplified_to(new, g, z),
{
    lemma_normal_extends(old, new, z);
    lemma_weight_extends(old, new, z);
    lemma_weight_extends(old, new, g);
    lemma_sober_extends(old, new, g);
    lemma_agrees_extends(old, new, g, z);
}

/// The simplified members of an inference in a store are such in every
/// store that extends it.
pub proof fn lemma_simplified_image_extends(
    old: StoreView,
    new: StoreView,
    raw: Seq<Id>,
    inf: Seq<Id>,
)
    requires
        old.wf(),
        new.wf(),
        new.extends(old),
        simplified_image(old, raw, inf),
    ensures
        simplified_image(new, raw, inf),
{
    assert forall|g: Id| #[trigger] raw.contains(g) implies exists|z: Id|
        inf.contains(z) && simplified_to(new, g, z) by {
        let z = choose|z: Id| inf.contains(z) && simplified_to(old, g, z);
        lemma_simplified_to_extends(old, new, g, z);
    }
    assert forall|z: Id| #[trigger] held(inf, z) implies exists|g: Id|
        raw.contains(g) && simplified_to(new, g, z) by {
        let g = choose|g: Id| raw.contains(g) && simplified_to(old, g, z);
        lemma_simplified_to_extends(old, new, g, z);
    }
}

/// One more member and its simplified form extend an inference and the set
/// of its simplified members.
pub proof fn lemma_simplified_image_step(
    s: StoreView,
    raw: Seq<Id>,
    inf: Seq<Id>,
    next: Seq<Id>,
    out: Seq<Id>,
    g: Id,
    z: Id,
)
    requires
        simplified_image(s, raw, inf),
        forall|x: Id| next.contains(x) <==> (raw.contains(x) || x == g),
        forall|x: Id| out.contains(x) <==> (inf.contains(x) || x == z),
        simplified_to(s, g, z),
    ensures
        simplified_image(s, next, out),
{
    assert forall|x: Id| #[trigger] next.contains(x) implies exists|y: Id|
        out.contains(y) && simplified_to(s, x, y) by {
        if raw.contains(x) {
            let y = choose|y: Id| inf.contains(y) && simplified_to(s, x, y);
            assert(out.contains(y));
        } else {
            assert(out.contains(z));
        }
    }
    assert forall|y: Id| #[trigger] held(out, y) implies exists|x: Id|
        next.contains(x) && simplified_to(s, x, y) by {
        if inf.contains(y) {
            assert(held(inf, y));
            let x = choose|x: Id| raw.contains(x) && simplified_to(s, x, y);
            assert(next.contains(x));
        } else {
            assert(next.contains(g));
        }
    }
}

/// The simplified forms of the members of `raw`.
fn simplify_inference(store: &mut Store, raw: &IdSet) -> (out: IdSet)
    requires
        old(store).wf(),
        forall|i: int| 0 <= i < raw@.len() ==> raw@[i] < old(store)@.formulae.len(),
    ensures
        final(store).wf(),
        final(store)@.extends(old(store)@),
        out.wf(),
        forall|i: int| 0 <= i < out@.len() ==> out@[i] < final(store)@.formulae.len(),
        simplified_image(final(store)@, raw@, out@),
{
    let n = raw.len();
    let mut out = IdSet::empty();
    let mut i: usize = 0;
    proof {
        assert(raw@.subrange(0, 0) =~= Seq::<Id>::empty());
    }
    while i < n
        invariant
            n == raw@.len(),
            i <= n,
            store.wf(),
            store@.extends(old(store)@),
            forall|j: int| 0 <= j < raw@.len() ==> raw@[j] < old(store)@.formulae.len(),
            out.wf(),
            forall|z: Id| out@.contains(z) ==> z < store@.formulae.len(),
            simplified_image(store@, raw@.subrange(0, i as int), out@),
        decreases n - i,
    {
        let ghost before = store@;
        let ghost sofar = out@;
        let g = raw.at(i);
        let z = simplify(store, g);
        out = out.with(z);
        proof {
            crate::collections::lemma_prefix_contains(raw@, i as int);
            lemma_weight_extends(before, store@, g);
            lemma_sober_extends(before, store@, g);
            if sober(before, g) {
                lemma_sober_tame(before, g);
            }
            lemma_simplified_image_extends(before, store@, raw@.subrange(0, i as int), sofar);
            lemma_simplified_image_step(
                store@,
                raw@.subrange(0, i as int),
                sofar,
                raw@.subrange(0, i + 1),
                out@,
                g,
                z,
            );
        }
        i += 1;
    }
    proof {
        assert(raw@.subrange(0, n as int) =~= raw@);
        assert forall|j: int| 0 <= j < out@.len() implies out@[j] < store@.formulae.len() by {
            assert(out@.contains(out@[j]));
        }
    }
    out
}

/// Whether each of the inferences from position `from` on is a single
/// weakening of `f`.
pub open spec fn weakened_from(s: StoreView, f: Id, list: Seq<Seq<Id>>, from: int) -> bool {
    forall|i: int| from <= i < list.len() ==> is_single_weakening(s, f, #[trigger] list[i])
}

/// Whether `raw` is a single weakening of `f`.
pub open spec fn is_single_weakening(s: StoreView, f: Id, raw: Seq<Id>) -> bool {
    exists|w: Id| is_weakening(s, f, w) && raw == seq![w]
}

/// Whether what the use `k` of the weakening rules makes of `f` is listed as
/// an inference of its own.
pub open spec fn listed_weakening(s: StoreView, f: Id, k: Weakening, list: Seq<Seq<Id>>) -> bool {
    exists|i: int, w: Id|
        0 <= i < list.len() && #[trigger] weakened(s, f, k, w) && #[trigger] list[i] == seq![w]
}

/// Whether every use of the weakening rules that `f` has in the store
/// `before` is listed.
pub open spec fn weakenings_listed(before: StoreView, s: StoreView, f: Id, list: Seq<Seq<Id>>) -> bool {
    forall|k: Weakening| #[trigger] weakenable(before, f, k) ==> listed_weakening(s, f, k, list)
}

/// Whether each of the first `m` of `ws` is listed as an inference of its
/// own.
pub open spec fn singles_listed(ws: Seq<Id>, m: int, list: Seq<Seq<Id>>) -> bool {
    forall|j: int| 0 <= j < m ==> list.contains(seq![#[trigger] ws[j]])
}

/// Adds to `deduced` each weakening of `f`, as an inference of its own.
pub fn weakening_deductions(store: &mut Store, deduced: &mut Inferences, f: Id)
    requires
        old(store).wf(),
        old(deduced).wf(),
        all_formulae(old(store)@, old(deduced)@),
        f < old(store)@.formulae.len(),
    ensures
        final(store).wf(),
        final(store)@.extends(old(store)@),
        final(deduced).wf(),
        continues(old(deduced)@, final(deduced)@),
        all_formulae(final(store)@, final(deduced)@),
        weakened_from(final(store)@, f, final(deduced)@, old(deduced)@.len() as int),
        weakenings_listed(old(store)@, final(store)@, f, final(deduced)@),
{
    let ghost before = store@;
    let ghost start = deduced@;
    let ws = weaken(store, f);
    proof {
        crate::deduction::making::lemma_all_formulae_extends(before, store@, start);
    }
    let n = ws.len();
    let mut j: usize = 0;
    while j < n
        invariant
            n == ws@.len(),
            j <= n,
            store.wf(),
            ws.wf(),
            forall|i: int| 0 <= i < ws@.len() ==> ws@[i] < store@.formulae.len(),
            weakenings(before, store@, f, ws@),
            deduced.wf(),
            continues(start, deduced@),
            start == old(deduced)@,
            all_formulae(store@, deduced@),
            weakened_from(store@, f, deduced@, start.len() as int),
            singles_listed(ws@, j as int, deduced@),
        decreases n - j,
    {
        let ghost sofar = deduced@;
        let w = ws.at(j);
        deduced.insert(single(w));
        proof {
            let after = deduced@;
            assert(ws@.contains(ws@[j as int]));
            assert(held(ws@, w));
            assert(is_weakening(store@, f, w));
            assert forall|i: int| start.len() <= i < after.len() implies is_single_weakening(
                store@,
                f,
                #[trigger] after[i],
            ) by {
                if i < sofar.len() {
                    assert(after[i] == sofar[i]);
                    assert(is_single_weakening(store@, f, sofar[i]));
                } else {
                    assert(after[i] == seq![w]);
                }
            }
            assert forall|a: int, b: int|
                0 <= a < after.len() && 0 <= b < after[a].len() implies (#[trigger] after[a][b])
                < store@.formulae.len() by {
                if a < sofar.len() {
                    assert(after[a] == sofar[a]);
                    assert(sofar[a][b] < store@.formulae.len());
                } else {
                    assert(after[a] == seq![w]);
                }
            }
            assert forall|x: int| 0 <= x < j + 1 implies after.contains(
                seq![#[trigger] ws@[x]],
            ) by {
                if x < j {
                    assert(sofar.contains(seq![ws@[x]]));
                    let i = choose|i: int| 0 <= i < sofar.len() && sofar[i] == seq![ws@[x]];
                    assert(after[i] == seq![ws@[x]]);
                }
            }
        }
        j += 1;
    }
    proof {
        let s = store@;
        assert forall|k: Weakening| #[trigger] weakenable(before, f, k) implies listed_weakening(
            s,
            f,
            k,
            deduced@,
        ) by {
            assert(has_weakening(s, f, k, ws@));
            let w = choose|w: Id| ws@.contains(w) && weakened(s, f, k, w);
            let x = choose|x: int| 0 <= x < ws@.len() && ws@[x] == w;
            assert(deduced@.contains(seq![ws@[x]]));
            let i = choose|i: int| 0 <= i < deduced@.len() && deduced@[i] == seq![ws@[x]];
            assert(0 <= i < deduced@.len() && weakened(s, f, k, w) && deduced@[i] == seq![w]);
        }
    }
}

/// Whether the simplified members of `raw` are one of `list`.
pub open spec fn image_listed(s: StoreView, raw: Seq<Id>, list: Seq<Seq<Id>>) -> bool {
    exists|i: int| 0 <= i < list.len() && #[trigger] simplified_image(s, raw, list[i])
}

/// Whether this holds of each of the first `m` of `raws`.
pub open spec fn images_upto(s: StoreView, raws: Seq<Seq<Id>>, m: int, list: Seq<Seq<Id>>) -> bool {
    forall|j: int| 0 <= j < m ==> image_listed(s, #[trigger] raws[j], list)
}

/// Whether `inf` holds the simplified members of one of `raws`.
pub open spec fn image_of_some(s: StoreView, raws: Seq<Seq<Id>>, inf: Seq<Id>) -> bool {
    exists|j: int| 0 <= j < raws.len() && #[trigger] simplified_image(s, raws[j], inf)
}

/// Whether this holds of each of `list`.
pub open spec fn all_images(s: StoreView, raws: Seq<Seq<Id>>, list: Seq<Seq<Id>>) -> bool {
    forall|i: int| 0 <= i < list.len() ==> image_of_some(s, raws, #[trigger] list[i])
}

/// What is listed of the images stays listed when the store and the list
/// grow.
pub proof fn lemma_images_extend(
    old: StoreView,
    new: StoreView,
    raws: Seq<Seq<Id>>,
    m: int,
    list: Seq<Seq<Id>>,
    longer: Seq<Seq<Id>>,
)
    requires
        old.wf(),
        new.wf(),
        new.extends(old),
        continues(list, longer),
        images_upto(old, raws, m, list),
        all_images(old, raws, list),
    ensures
        images_upto(new, raws, m, longer),
        all_images(new, raws, list),
{
    assert forall|j: int| 0 <= j < m implies image_listed(new, #[trigger] raws[j], longer) by {
        assert(image_listed(old, raws[j], list));
        let i = choose|i: int| 0 <= i < list.len() && #[trigger] simplified_image(old, raws[j], list[i]);
        lemma_simplified_image_extends(old, new, raws[j], list[i]);
        assert(longer[i] == list[i]);
        assert(0 <= i < longer.len() && simplified_image(new, raws[j], longer[i]));
    }
    assert forall|i: int| 0 <= i < list.len() implies image_of_some(
        new,
        raws,
        #[trigger] list[i],
    ) by {
        assert(image_of_some(old, raws, list[i]));
        let j = choose|j: int|
            0 <= j < raws.len() && #[trigger] simplified_image(old, raws[j], list[i]);
        lemma_simplified_image_extends(old, new, raws[j], list[i]);
    }
}

/// What the raw inferences of `f` and their images say of the deductions of
/// `f`.
pub proof fn lemma_deductions_of(
    before: StoreView,
    first: StoreView,
    second: StoreView,
    s: StoreView,
    symbols: Seq<(Symbol, usize)>,
    f: Id,
    raws: Seq<Seq<Id>>,
    split: int,
    list: Seq<Seq<Id>>,
)
    requires
        first.extends(before),
        second.extends(first),
        s.extends(second),
        is_signature(before, f, symbols),
        0 <= split <= raws.len(),
        forall|j: int| 0 <= j < split ==> belongs(first, symbols, f, #[trigger] raws[j]),
        forall|k: Instance| #[trigger]
            applicable(before, symbols, f, k) ==> exists|j: int|
                0 <= j < split && complete_rule(first, symbols, f, k, #[trigger] raws[j]),
        weakened_from(second, f, raws, split),
        weakenings_listed(first, second, f, raws),
        images_upto(s, raws, raws.len() as int, list),
        all_images(s, raws, list),
    ensures
        deductions_of(before, s, f, list),
{
    assert forall|i: int| 0 <= i < list.len() implies is_deduction(
        s,
        symbols,
        f,
        #[trigger] list[i],
    ) by {
        assert(image_of_some(s, raws, list[i]));
        let j = choose|j: int|
            0 <= j < raws.len() && #[trigger] simplified_image(s, raws[j], list[i]);
        if j < split {
            assert(belongs(first, symbols, f, raws[j]));
            let k = choose|k: Instance| complete_rule(first, symbols, f, k, raws[j]);
            lemma_complete_rule_extends(first, s, symbols, f, k, raws[j]);
            assert(belongs(s, symbols, f, raws[j]));
        } else {
            assert(is_single_weakening(second, f, raws[j]));
            let w = choose|w: Id| is_weakening(second, f, w) && raws[j] == seq![w];
            let k = choose|k: Weakening| weakened(second, f, k, w);
            lemma_weakened_extends(second, s, f, k, w);
            assert(is_weakening(s, f, w) && raws[j] == seq![w]);
        }
        assert(is_inference(s, symbols, f, raws[j]) && simplified_image(s, raws[j], list[i]));
    }
    assert forall|k: Instance| #[trigger] applicable(before, symbols, f, k) implies deduced_complete(
        s,
        symbols,
        f,
        k,
        list,
    ) by {
        let j = choose|j: int|
            0 <= j < split && complete_rule(first, symbols, f, k, #[trigger] raws[j]);
        lemma_complete_rule_extends(first, s, symbols, f, k, raws[j]);
        assert(image_listed(s, raws[j], list));
        let i = choose|i: int| 0 <= i < list.len() && #[trigger] simplified_image(s, raws[j], list[i]);
        assert(0 <= i < list.len() && complete_rule(s, symbols, f, k, raws[j]) && simplified_image(
            s,
            raws[j],
            list[i],
        ));
    }
    assert forall|k: Weakening| #[trigger] weakenable(before, f, k) implies deduced_weakening(
        s,
        f,
        k,
        list,
    ) by {
        crate::deduction::weakening::lemma_weakenable_extends(before, first, f, k);
        assert(listed_weakening(second, f, k, raws));
        let (j, w) = choose|j: int, w: Id|
            0 <= j < raws.len() && #[trigger] weakened(second, f, k, w) && #[trigger] raws[j]
                == seq![w];
        lemma_weakened_extends(second, s, f, k, w);
        assert(image_listed(s, raws[j], list));
        let i = choose|i: int| 0 <= i < list.len() && #[trigger] simplified_image(s, raws[j], list[i]);
        assert(0 <= i < list.len() && weakened(s, f, k, w) && simplified_image(
            s,
            seq![w],
            list[i],
        ));
    }
}

/// The deductions of `f`: the inferences that the complete rules and the
/// weakening rules give for it, each with its members simplified, none of
/// them twice.
pub fn deductions(store: &mut Store, f: Id) -> (out: Inferences)
    requires
        old(store).wf(),
        f < old(store)@.formulae.len(),
    ensures
        final(store).wf(),
        final(store)@.extends(old(store)@),
        out.wf(),
        all_formulae(final(store)@, out@),
        deductions_of(old(store)@, final(store)@, f, out@),
{
    let ghost before = store@;
    let symbols = Formula::function_symbols(store, f);
    let mut raw = Inferences::new();
    complete(store, &mut raw, &symbols, f);
    let ghost first = store@;
    let ghost complete_part = raw@;
    weakening_deductions(store, &mut raw, f);
    let ghost second = store@;
    let ghost raws = raw@;
    let mut out = Inferences::new();
    let n = raw.len();
    let mut i: usize = 0;
    while i < n
        invariant
            n == raws.len(),
            raws == raw@,
            i <= n,
            store.wf(),
            second.wf(),
            store@.extends(second),
            raw.wf(),
            all_formulae(second, raws),
            out.wf(),
            all_formulae(store@, out@),
            images_upto(store@, raws, i as int, out@),
            all_images(store@, raws, out@),
        decreases n - i,
    {
        let ghost earlier = store@;
        let ghost sofar = out@;
        let inference = raw.get(i).clone();
        proof {
            assert forall|x: int| 0 <= x < inference@.len() implies inference@[x]
                < store@.formulae.len() by {
                assert(raws[i as int][x] < second.formulae.len());
            }
        }
        let simplified = simplify_inference(store, &inference);
        let ghost made = simplified@;
        out.insert(simplified);
        proof {
            let s = store@;
            let after = out@;
            lemma_images_extend(earlier, s, raws, i as int, sofar, after);
            let idx = choose|idx: int| 0 <= idx < after.len() && after[idx] == made;
            assert(simplified_image(s, raws[i as int], after[idx]));
            assert forall|j: int| 0 <= j < i + 1 implies image_listed(
                s,
                #[trigger] raws[j],
                after,
            ) by {}
            assert forall|x: int| 0 <= x < after.len() implies image_of_some(
                s,
                raws,
                #[trigger] after[x],
            ) by {
                if x < sofar.len() {
                    assert(after[x] == sofar[x]);
                    assert(image_of_some(s, raws, sofar[x]));
                } else {
                    assert(after[x] == made);
                    assert(0 <= i < raws.len() && simplified_image(s, raws[i as int], made));
                }
            }
            crate::deduction::making::lemma_all_formulae_extends(earlier, s, sofar);
            assert forall|a: int, b: int|
                0 <= a < after.len() && 0 <= b < after[a].len() implies (#[trigger] after[a][b])
                < s.formulae.len() by {
                if a < sofar.len() {
                    assert(after[a] == sofar[a]);
                    assert(sofar[a][b] < s.formulae.len());
                } else {
                    assert(after[a] == made);
                }
            }
        }
        i += 1;
    }
    proof {
        let split = complete_part.len() as int;
        assert forall|j: int| 0 <= j < split implies belongs(
            first,
            symbols@,
            f,
            #[trigger] raws[j],
        ) by {
            assert(raws[j] == complete_part[j]);
            assert(belongs(first, symbols@, f, complete_part[j]));
        }
        assert forall|k: Instance| #[trigger] applicable(before, symbols@, f, k) implies exists|
            j: int,
        | 0 <= j < split && complete_rule(first, symbols@, f, k, #[trigger] raws[j]) by {
            assert(listed(first, symbols@, f, k, complete_part));
            let j = choose|j: int|
                0 <= j < complete_part.len() && complete_rule(
                    first,
                    symbols@,
                    f,
                    k,
                    #[trigger] complete_part[j],
                );
            assert(raws[j] == complete_part[j]);
        }
        lemma_deductions_of(before, first, second, store@, symbols@, f, raws, split, out@);
    }
    out
}

} // verus!
