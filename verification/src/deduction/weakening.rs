//! The weakening rules: goals that say less.
//!
//! A conjunction says less without one of its members, or with a member
//! replaced by something that says less than the member. An equation and an
//! equivalence class of more than two say less without one of their members.

use crate::collections::{Id, IdSet};

use crate::deduction::making::{build_with_background, lemma_removed, without};
use crate::deduction::rules::{lemma_with_background_extends, removed, with_background};
use crate::formula::{Formula, FormulaView};
use crate::store::{Store, StoreView};
use crate::substitution::held;
use vstd::prelude::*;

verus! {

/// Which use of a weakening rule a formula comes from.
pub enum Weakening {
    /// The formula without this member.
    Drop(Id),
    /// The conjunction with this member replaced by what this use of a rule
    /// makes of the member.
    Inside(Id, Box<Weakening>),
}

/// Whether `w` is what the use `k` of the weakening rules makes of `f`.
pub open spec fn weakened(s: StoreView, f: Id, k: Weakening, w: Id) -> bool
    decreases f,
{
    f < s.formulae.len() && match s.formulae[f as int] {
        FormulaView::Eq(ts) => match k {
            Weakening::Drop(t) => ts.len() > 2 && ts.contains(t) && s.is(
                w,
                FormulaView::Eq(removed(ts, t)),
            ),
            _ => false,
        },
        FormulaView::And(ps) => match k {
            Weakening::Drop(p) => ps.contains(p) && s.is(w, FormulaView::And(removed(ps, p))),
            Weakening::Inside(p, sub) => ps.contains(p) && p < f && exists|q: Id|
                weakened(s, p, *sub, q) && #[trigger] with_background(s, w, removed(ps, p), q),
        },
        FormulaView::Eqv(ps) => match k {
            Weakening::Drop(p) => ps.len() > 2 && ps.contains(p) && s.is(
                w,
                FormulaView::Eqv(removed(ps, p)),
            ),
            _ => false,
        },
        _ => false,
    }
}

/// Whether the weakening rules have the use `k` for `f`.
pub open spec fn weakenable(s: StoreView, f: Id, k: Weakening) -> bool
    decreases f,
{
    f < s.formulae.len() && match s.formulae[f as int] {
        FormulaView::Eq(ts) => match k {
            Weakening::Drop(t) => ts.len() > 2 && ts.contains(t),
            _ => false,
        },
        FormulaView::And(ps) => match k {
            Weakening::Drop(p) => ps.contains(p),
            Weakening::Inside(p, sub) => ps.contains(p) && p < f && weakenable(s, p, *sub),
        },
        FormulaView::Eqv(ps) => match k {
            Weakening::Drop(p) => ps.len() > 2 && ps.contains(p),
            _ => false,
        },
        _ => false,
    }
}

/// Whether `w` is a weakening of `f`.
pub open spec fn is_weakening(s: StoreView, f: Id, w: Id) -> bool {
    exists|k: Weakening| weakened(s, f, k, w)
}

/// Whether what the use `k` of the weakening rules makes of `f` is among
/// `ws`.
pub open spec fn has_weakening(s: StoreView, f: Id, k: Weakening, ws: Seq<Id>) -> bool {
    exists|w: Id| ws.contains(w) && weakened(s, f, k, w)
}

/// Whether `ws` are the weakenings of `f`: each of `ws` is one, and every
/// use of the rules that `f` has in the store `before` gives one of `ws`.
pub open spec fn weakenings(before: StoreView, s: StoreView, f: Id, ws: Seq<Id>) -> bool {
    &&& forall|w: Id| #[trigger] held(ws, w) ==> is_weakening(s, f, w)
    &&& forall|k: Weakening| #[trigger] weakenable(before, f, k) ==> has_weakening(s, f, k, ws)
}

/// A weakening in a store is one in every store that extends it.
pub proof fn lemma_weakened_extends(old: StoreView, new: StoreView, f: Id, k: Weakening, w: Id)
    requires
        new.extends(old),
        weakened(old, f, k, w),
    ensures
        weakened(new, f, k, w),
    decreases f,
{
    assert(new.formulae[f as int] == old.formulae[f as int]);
    match old.formulae[f as int] {
        FormulaView::And(ps) => {
            match k {
                Weakening::Inside(p, sub) => {
                    let q = choose|q: Id|
                        weakened(old, p, *sub, q) && #[trigger] with_background(
                            old,
                            w,
                            removed(ps, p),
                            q,
                        );
                    lemma_weakened_extends(old, new, p, *sub, q);
                    lemma_with_background_extends(old, new, w, removed(ps, p), q);
                    assert(weakened(new, p, *sub, q) && with_background(
                        new,
                        w,
                        removed(ps, p),
                        q,
                    ));
                },
                _ => {},
            }
        },
        _ => {},
    }
}

/// A use of the weakening rules that a formula has in a store, it has in
/// every store that extends it.
pub proof fn lemma_weakenable_extends(old: StoreView, new: StoreView, f: Id, k: Weakening)
    requires
        new.extends(old),
        weakenable(old, f, k),
    ensures
        weakenable(new, f, k),
    decreases f,
{
    assert(new.formulae[f as int] == old.formulae[f as int]);
    match old.formulae[f as int] {
        FormulaView::And(ps) => {
            match k {
                Weakening::Inside(p, sub) => {
                    lemma_weakenable_extends(old, new, p, *sub);
                },
                _ => {},
            }
        },
        _ => {},
    }
}

/// Whether each of `ws` is a weakening of `f`.
pub open spec fn all_weakenings(s: StoreView, f: Id, ws: Seq<Id>) -> bool {
    forall|w: Id| #[trigger] held(ws, w) ==> is_weakening(s, f, w)
}

/// Whether `ws` holds `f` without each of the first `m` of its members
/// `ps`.
pub open spec fn dropped_upto(s: StoreView, f: Id, ps: Seq<Id>, m: int, ws: Seq<Id>) -> bool {
    forall|i: int| 0 <= i < m ==> #[trigger] has_dropped(s, f, ps, i, ws)
}

/// Whether `ws` holds `f` without the member at `i`.
pub open spec fn has_dropped(s: StoreView, f: Id, ps: Seq<Id>, i: int, ws: Seq<Id>) -> bool {
    has_weakening(s, f, Weakening::Drop(ps[i]), ws)
}

/// Whether, for every use of the rules that the member `p` has, `ws` holds
/// the conjunction `f` with the member replaced accordingly.
pub open spec fn inside_covered(before: StoreView, s: StoreView, f: Id, p: Id, ws: Seq<Id>) -> bool {
    forall|k: Weakening| #[trigger]
        weakenable(before, p, k) ==> has_weakening(s, f, Weakening::Inside(p, Box::new(k)), ws)
}

/// Whether this holds of each of the first `m` members.
pub open spec fn insides_covered(
    before: StoreView,
    s: StoreView,
    f: Id,
    ps: Seq<Id>,
    m: int,
    ws: Seq<Id>,
) -> bool {
    forall|i: int| 0 <= i < m ==> inside_covered(before, s, f, #[trigger] ps[i], ws)
}

/// Whether, for every use of the rules that makes `q` of the member `p`,
/// `ws` holds the conjunction `f` with `p` replaced accordingly.
pub open spec fn replaced_at(earlier: StoreView, s: StoreView, f: Id, p: Id, q: Id, ws: Seq<Id>) -> bool {
    forall|k: Weakening| #[trigger]
        weakened(earlier, p, k, q) ==> has_weakening(s, f, Weakening::Inside(p, Box::new(k)), ws)
}

/// Whether this holds of each of the first `m` of `qs`.
pub open spec fn replaced_upto(
    earlier: StoreView,
    s: StoreView,
    f: Id,
    p: Id,
    qs: Seq<Id>,
    m: int,
    ws: Seq<Id>,
) -> bool {
    forall|j: int| 0 <= j < m ==> replaced_at(earlier, s, f, p, #[trigger] qs[j], ws)
}

/// What the bookkeeping of the weakenings of a connective says stays true
/// when the store grows and weakenings are added.
pub proof fn lemma_bookkeeping_extends(
    before: StoreView,
    earlier: StoreView,
    old: StoreView,
    new: StoreView,
    f: Id,
    ps: Seq<Id>,
    p: Id,
    qs: Seq<Id>,
    m: int,
    n: int,
    ws: Seq<Id>,
    more: Seq<Id>,
)
    requires
        new.extends(old),
        forall|w: Id| ws.contains(w) ==> more.contains(w),
    ensures
        all_weakenings(old, f, ws) && (forall|w: Id| more.contains(w) && !ws.contains(w)
            ==> is_weakening(new, f, w)) ==> all_weakenings(new, f, more),
        dropped_upto(old, f, ps, m, ws) ==> dropped_upto(new, f, ps, m, more),
        insides_covered(before, old, f, ps, m, ws) ==> insides_covered(
            before,
            new,
            f,
            ps,
            m,
            more,
        ),
        replaced_upto(earlier, old, f, p, qs, n, ws) ==> replaced_upto(
            earlier,
            new,
            f,
            p,
            qs,
            n,
            more,
        ),
{
    if all_weakenings(old, f, ws) && (forall|w: Id| more.contains(w) && !ws.contains(w)
        ==> is_weakening(new, f, w)) {
        assert forall|w: Id| #[trigger] held(more, w) implies is_weakening(new, f, w) by {
            if ws.contains(w) {
                assert(held(ws, w));
                let k = choose|k: Weakening| weakened(old, f, k, w);
                lemma_weakened_extends(old, new, f, k, w);
            }
        }
    }
    if dropped_upto(old, f, ps, m, ws) {
        assert forall|i: int| 0 <= i < m implies #[trigger] has_dropped(new, f, ps, i, more) by {
            assert(has_dropped(old, f, ps, i, ws));
            lemma_has_weakening_extends(old, new, f, Weakening::Drop(ps[i]), ws, more);
        }
    }
    if insides_covered(before, old, f, ps, m, ws) {
        assert forall|i: int| 0 <= i < m implies inside_covered(
            before,
            new,
            f,
            #[trigger] ps[i],
            more,
        ) by {
            assert(inside_covered(before, old, f, ps[i], ws));
            assert forall|k: Weakening| #[trigger] weakenable(before, ps[i], k) implies has_weakening(
                new,
                f,
                Weakening::Inside(ps[i], Box::new(k)),
                more,
            ) by {
                lemma_has_weakening_extends(
                    old,
                    new,
                    f,
                    Weakening::Inside(ps[i], Box::new(k)),
                    ws,
                    more,
                );
            }
        }
    }
    if replaced_upto(earlier, old, f, p, qs, n, ws) {
        assert forall|j: int| 0 <= j < n implies replaced_at(
            earlier,
            new,
            f,
            p,
            #[trigger] qs[j],
            more,
        ) by {
            assert(replaced_at(earlier, old, f, p, qs[j], ws));
            assert forall|k: Weakening| #[trigger] weakened(earlier, p, k, qs[j]) implies has_weakening(
                new,
                f,
                Weakening::Inside(p, Box::new(k)),
                more,
            ) by {
                lemma_has_weakening_extends(
                    old,
                    new,
                    f,
                    Weakening::Inside(p, Box::new(k)),
                    ws,
                    more,
                );
            }
        }
    }
}

/// A weakening that is among `ws` in a store is among every larger set in
/// every store that extends it.
pub proof fn lemma_has_weakening_extends(
    old: StoreView,
    new: StoreView,
    f: Id,
    k: Weakening,
    ws: Seq<Id>,
    more: Seq<Id>,
)
    requires
        new.extends(old),
        forall|w: Id| ws.contains(w) ==> more.contains(w),
        has_weakening(old, f, k, ws),
    ensures
        has_weakening(new, f, k, more),
{
    let w = choose|w: Id| ws.contains(w) && weakened(old, f, k, w);
    lemma_weakened_extends(old, new, f, k, w);
    assert(more.contains(w) && weakened(new, f, k, w));
}

/// The weakening of a conjunction that replaces a member by one of its
/// weakenings.
pub proof fn lemma_inside_rule(
    earlier: StoreView,
    s: StoreView,
    f: Id,
    ps: Seq<Id>,
    p: Id,
    k: Weakening,
    q: Id,
    w: Id,
)
    requires
        s.extends(earlier),
        s.is(f, FormulaView::And(ps)),
        ps.contains(p),
        p < f,
        weakened(earlier, p, k, q),
        with_background(s, w, removed(ps, p), q),
    ensures
        weakened(s, f, Weakening::Inside(p, Box::new(k)), w),
{
    lemma_weakened_extends(earlier, s, p, k, q);
    let boxed = Box::new(k);
    assert(*boxed == k);
    assert(weakened(s, p, *boxed, q) && with_background(s, w, removed(ps, p), q));
    assert(s.formulae[f as int] == FormulaView::And(ps));
    assert(Weakening::Inside(p, boxed) matches Weakening::Inside(x, sub) && x == p && sub
        == boxed);
}

/// The equation or equivalence class `f` with the members `ps`, without
/// each of its members in turn.
fn drop_each(store: &mut Store, f: Id, ps: &IdSet, equation: bool) -> (ws: IdSet)
    requires
        old(store).wf(),
        ps.wf(),
        ps@.len() > 2,
        equation ==> old(store)@.is(f, FormulaView::Eq(ps@)),
        !equation ==> old(store)@.is(f, FormulaView::Eqv(ps@)),
    ensures
        final(store).wf(),
        final(store)@.extends(old(store)@),
        ws.wf(),
        forall|i: int| 0 <= i < ws@.len() ==> ws@[i] < final(store)@.formulae.len(),
        weakenings(old(store)@, final(store)@, f, ws@),
{
    let ghost before = store@;
    proof {
        assert(before.formula_ok(before.formulae[f as int], f as int));
    }
    let n = ps.len();
    let mut ws = IdSet::empty();
    let mut i: usize = 0;
    proof {
        assert forall|w: Id| #[trigger] held(ws@, w) implies is_weakening(store@, f, w) by {}
    }
    while i < n
        invariant
            n == ps@.len(),
            n > 2,
            i <= n,
            store.wf(),
            store@.extends(before),
            before == old(store)@,
            ps.wf(),
            equation ==> before.is(f, FormulaView::Eq(ps@)),
            !equation ==> before.is(f, FormulaView::Eqv(ps@)),
            equation ==> forall|j: int| 0 <= j < ps@.len() ==> ps@[j] < before.terms.len(),
            !equation ==> forall|j: int| 0 <= j < ps@.len() ==> ps@[j] < f,
            ws.wf(),
            forall|w: Id| ws@.contains(w) ==> w < store@.formulae.len(),
            all_weakenings(store@, f, ws@),
            dropped_upto(store@, f, ps@, i as int, ws@),
        decreases n - i,
    {
        let ghost earlier = store@;
        let ghost sofar = ws@;
        let p = ps.at(i);
        let others = without(ps, p);
        proof {
            lemma_removed(ps@, p);
            assert(ps@.contains(ps@[i as int]));
            assert forall|j: int| 0 <= j < others@.len() implies (equation ==> others@[j]
                < store@.terms.len()) && (!equation ==> others@[j] < store@.formulae.len()) by {
                assert(removed(ps@, p)[j] == others@[j]);
                assert(removed(ps@, p).contains(others@[j]));
                assert(ps@.contains(others@[j]));
                let k = choose|k: int| 0 <= k < ps@.len() && ps@[k] == others@[j];
            }
        }
        let w = if equation {
            store.intern(Formula::Eq(others))
        } else {
            store.intern(Formula::Eqv(others))
        };
        ws = ws.with(w);
        proof {
            let s = store@;
            assert(s.formulae[f as int] == before.formulae[f as int]);
            assert(weakened(s, f, Weakening::Drop(p), w));
            lemma_bookkeeping_extends(
                before,
                earlier,
                earlier,
                s,
                f,
                ps@,
                p,
                Seq::empty(),
                i as int,
                0,
                sofar,
                ws@,
            );
            assert forall|j: int| 0 <= j < i + 1 implies #[trigger] has_dropped(
                s,
                f,
                ps@,
                j,
                ws@,
            ) by {
                if j == i {
                    assert(ws@.contains(w) && weakened(s, f, Weakening::Drop(ps@[j]), w));
                }
            }
        }
        i += 1;
    }
    proof {
        let s = store@;
        assert forall|k: Weakening| #[trigger] weakenable(before, f, k) implies has_weakening(
            s,
            f,
            k,
            ws@,
        ) by {
            match k {
                Weakening::Drop(p) => {
                    let j = choose|j: int| 0 <= j < ps@.len() && ps@[j] == p;
                    assert(has_dropped(s, f, ps@, j, ws@));
                },
                _ => {},
            }
        }
        assert forall|j: int| 0 <= j < ws@.len() implies ws@[j] < s.formulae.len() by {
            assert(ws@.contains(ws@[j]));
        }
    }
    ws
}

/// The weakenings of `f`.
///
/// Each of them is what one use of a weakening rule makes of `f`, and
/// every use of a rule that `f` has gives one of them.
pub fn weaken(store: &mut Store, f: Id) -> (ws: IdSet)
    requires
        old(store).wf(),
        f < old(store)@.formulae.len(),
    ensures
        final(store).wf(),
        final(store)@.extends(old(store)@),
        ws.wf(),
        forall|i: int| 0 <= i < ws@.len() ==> ws@[i] < final(store)@.formulae.len(),
        weakenings(old(store)@, final(store)@, f, ws@),
    decreases f,
{
    let ghost before = store@;
    proof {
        assert(before.formula_ok(before.formulae[f as int], f as int));
    }
    match store.formula(f) {
        Formula::Eq(ts) => {
            if ts.len() > 2 {
                let ts = ts.clone();
                drop_each(store, f, &ts, true)
            } else {
                let ws = IdSet::empty();
                proof {
                    assert forall|w: Id| #[trigger] held(ws@, w) implies is_weakening(
                        store@,
                        f,
                        w,
                    ) by {}
                }
                ws
            }
        },
        Formula::Eqv(ps) => {
            if ps.len() > 2 {
                let ps = ps.clone();
                drop_each(store, f, &ps, false)
            } else {
                let ws = IdSet::empty();
                proof {
                    assert forall|w: Id| #[trigger] held(ws@, w) implies is_weakening(
                        store@,
                        f,
                        w,
                    ) by {}
                }
                ws
            }
        },
        Formula::And(ps) => {
            let ps = ps.clone();
            let n = ps.len();
            let mut ws = IdSet::empty();
            let mut i: usize = 0;
            proof {
                assert forall|w: Id| #[trigger] held(ws@, w) implies is_weakening(
                    store@,
                    f,
                    w,
                ) by {}
            }
            while i < n
                invariant
                    n == ps@.len(),
                    i <= n,
                    store.wf(),
                    store@.extends(before),
                    before == old(store)@,
                    ps.wf(),
                    before.is(f, FormulaView::And(ps@)),
                    forall|j: int| 0 <= j < ps@.len() ==> ps@[j] < f,
                    ws.wf(),
                    forall|w: Id| ws@.contains(w) ==> w < store@.formulae.len(),
                    all_weakenings(store@, f, ws@),
                    dropped_upto(store@, f, ps@, i as int, ws@),
                    insides_covered(before, store@, f, ps@, i as int, ws@),
                decreases n - i,
            {
                let ghost called = store@;
                let ghost outer = ws@;
                let p = ps.at(i);
                let others = without(&ps, p);
                proof {
                    lemma_removed(ps@, p);
                    assert(ps@.contains(ps@[i as int]));
                    assert forall|j: int| 0 <= j < others@.len() implies others@[j]
                        < store@.formulae.len() by {
                        assert(removed(ps@, p)[j] == others@[j]);
                        assert(removed(ps@, p).contains(others@[j]));
                        assert(ps@.contains(others@[j]));
                        let k = choose|k: int| 0 <= k < ps@.len() && ps@[k] == others@[j];
                    }
                }
                let dropped = store.intern(Formula::And(others.clone()));
                ws = ws.with(dropped);
                let ghost middle = store@;
                let sub = weaken(store, p);
                let ghost earlier = store@;
                let ghost start = ws@;
                proof {
                    assert(middle.formulae[f as int] == before.formulae[f as int]);
                    assert(weakened(middle, f, Weakening::Drop(p), dropped));
                    lemma_weakened_extends(middle, earlier, f, Weakening::Drop(p), dropped);
                    lemma_bookkeeping_extends(
                        before,
                        earlier,
                        called,
                        earlier,
                        f,
                        ps@,
                        p,
                        Seq::empty(),
                        i as int,
                        0,
                        outer,
                        start,
                    );
                    assert forall|j: int| 0 <= j < i + 1 implies #[trigger] has_dropped(
                        earlier,
                        f,
                        ps@,
                        j,
                        start,
                    ) by {
                        if j == i {
                            assert(start.contains(dropped) && weakened(
                                earlier,
                                f,
                                Weakening::Drop(ps@[j]),
                                dropped,
                            ));
                        }
                    }
                }
                let m = sub.len();
                let mut j: usize = 0;
                while j < m
                    invariant
                        m == sub@.len(),
                        j <= m,
                        store.wf(),
                        store@.extends(earlier),
                        earlier.extends(before),
                        before.is(f, FormulaView::And(ps@)),
                        ps@.contains(p),
                        p < f,
                        others.wf(),
                        others@ == removed(ps@, p),
                        forall|x: int| 0 <= x < others@.len() ==> others@[x] < earlier.formulae.len(),
                        forall|x: int| 0 <= x < sub@.len() ==> sub@[x] < earlier.formulae.len(),
                        all_weakenings(earlier, p, sub@),
                        ws.wf(),
                        forall|w: Id| ws@.contains(w) ==> w < store@.formulae.len(),
                        all_weakenings(store@, f, ws@),
                        dropped_upto(store@, f, ps@, i + 1, ws@),
                        insides_covered(before, store@, f, ps@, i as int, ws@),
                        replaced_upto(earlier, store@, f, p, sub@, j as int, ws@),
                    decreases m - j,
                {
                    let ghost inner = store@;
                    let ghost sofar = ws@;
                    let q = sub.at(j);
                    let w = build_with_background(store, &others, q);
                    ws = ws.with(w);
                    proof {
                        let s = store@;
                        assert(sub@.contains(sub@[j as int]));
                        assert(held(sub@, q));
                        assert(is_weakening(earlier, p, q));
                        let k0 = choose|k: Weakening| weakened(earlier, p, k, q);
                        lemma_inside_rule(earlier, s, f, ps@, p, k0, q, w);
                        lemma_bookkeeping_extends(
                            before,
                            earlier,
                            inner,
                            s,
                            f,
                            ps@,
                            p,
                            sub@,
                            i + 1,
                            j as int,
                            sofar,
                            ws@,
                        );
                        lemma_bookkeeping_extends(
                            before,
                            earlier,
                            inner,
                            s,
                            f,
                            ps@,
                            p,
                            sub@,
                            i as int,
                            j as int,
                            sofar,
                            ws@,
                        );
                        assert forall|x: int| 0 <= x < j + 1 implies replaced_at(
                            earlier,
                            s,
                            f,
                            p,
                            #[trigger] sub@[x],
                            ws@,
                        ) by {
                            if x == j {
                                assert forall|k: Weakening| #[trigger]
                                    weakened(earlier, p, k, sub@[x]) implies has_weakening(
                                    s,
                                    f,
                                    Weakening::Inside(p, Box::new(k)),
                                    ws@,
                                ) by {
                                    lemma_inside_rule(earlier, s, f, ps@, p, k, q, w);
                                    assert(ws@.contains(w));
                                }
                            }
                        }
                    }
                    j += 1;
                }
                proof {
                    let s = store@;
                    assert forall|k: Weakening| #[trigger]
                        weakenable(before, p, k) implies has_weakening(
                        s,
                        f,
                        Weakening::Inside(p, Box::new(k)),
                        ws@,
                    ) by {
                        lemma_weakenable_extends(before, middle, p, k);
                        assert(has_weakening(earlier, p, k, sub@));
                        let q = choose|q: Id| sub@.contains(q) && weakened(earlier, p, k, q);
                        let x = choose|x: int| 0 <= x < sub@.len() && sub@[x] == q;
                        assert(replaced_at(earlier, s, f, p, sub@[x], ws@));
                    }
                    assert(inside_covered(before, s, f, p, ws@));
                    assert forall|x: int| 0 <= x < i + 1 implies inside_covered(
                        before,
                        s,
                        f,
                        #[trigger] ps@[x],
                        ws@,
                    ) by {}
                }
                i += 1;
            }
            proof {
                let s = store@;
                assert forall|k: Weakening| #[trigger]
                    weakenable(before, f, k) implies has_weakening(s, f, k, ws@) by {
                    match k {
                        Weakening::Drop(p) => {
                            let j = choose|j: int| 0 <= j < ps@.len() && ps@[j] == p;
                            assert(has_dropped(s, f, ps@, j, ws@));
                        },
                        Weakening::Inside(p, sub) => {
                            let j = choose|j: int| 0 <= j < ps@.len() && ps@[j] == p;
                            assert(inside_covered(before, s, f, ps@[j], ws@));
                            assert(weakenable(before, p, *sub));
                            assert(Box::new(*sub) == sub);
                        },
                    }
                }
                assert forall|j: int| 0 <= j < ws@.len() implies ws@[j] < s.formulae.len() by {
                    assert(ws@.contains(ws@[j]));
                }
            }
            ws
        },
        _ => {
            let ws = IdSet::empty();
            proof {
                assert forall|w: Id| #[trigger] held(ws@, w) implies is_weakening(
                    store@,
                    f,
                    w,
                ) by {}
            }
            ws
        },
    }
}

} // verus!
