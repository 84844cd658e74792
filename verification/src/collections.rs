//! Lists and ordered sets of identifiers.
//!
//! An identifier names a hash-consed value by its index in the store that
//! owns it. A list keeps identifiers in the order given; a set keeps each
//! identifier once, in ascending order, so that two sets with the same
//! members are the same sequence.

use smallvec::SmallVec;
use vstd::prelude::*;

verus! {

/// An identifier of a hash-consed value: its index in the store that owns it.
pub type Id = usize;

/// A list of identifiers, kept in a `SmallVec` with room for eight of them
/// inline. Verus sees nothing inside it: what it holds is `list_items`.
#[verifier::external_body]
pub struct IdList {
    items: SmallVec<[Id; 8]>,
}

/// The identifiers that a list holds, first to last.
pub uninterp spec fn list_items(list: IdList) -> Seq<Id>;

/// `SmallVec::new`: a list that holds nothing.
#[verifier::external_body]
pub(crate) fn list_new() -> (list: IdList)
    ensures
        list_items(list) == Seq::<Id>::empty(),
{
    IdList { items: SmallVec::new() }
}

/// `SmallVec::push`: the list gains `id` at its end and is otherwise unchanged.
#[verifier::external_body]
pub(crate) fn list_push(list: &mut IdList, id: Id)
    ensures
        list_items(*final(list)) == list_items(*old(list)).push(id),
{
    list.items.push(id)
}

/// `SmallVec::len`: the number of identifiers held.
#[verifier::external_body]
pub(crate) fn list_len(list: &IdList) -> (n: usize)
    ensures
        n == list_items(*list).len(),
{
    list.items.len()
}

/// Indexing a `SmallVec` as a slice: the identifier at position `i`.
#[verifier::external_body]
pub(crate) fn list_get(list: &IdList, i: usize) -> (id: Id)
    requires
        i < list_items(*list).len(),
    ensures
        id == list_items(*list)[i as int],
{
    list.items[i]
}

/// `SmallVec::clone`: a list that holds the same identifiers in the same order.
#[verifier::external_body]
pub(crate) fn list_clone(list: &IdList) -> (copy: IdList)
    ensures
        list_items(copy) == list_items(*list),
{
    IdList { items: list.items.clone() }
}

impl View for IdList {
    type V = Seq<Id>;

    open spec fn view(&self) -> Seq<Id> {
        list_items(*self)
    }
}

impl Clone for IdList {
    fn clone(&self) -> (copy: Self)
        ensures
            copy@ == self@,
    {
        list_clone(self)
    }
}

impl IdList {
    /// The empty list.
    pub fn new() -> (list: Self)
        ensures
            list@ == Seq::<Id>::empty(),
    {
        list_new()
    }

    /// Appends `id`.
    pub fn push(&mut self, id: Id)
        ensures
            final(self)@ == old(self)@.push(id),
    {
        list_push(self, id)
    }

    /// The number of identifiers in the list.
    pub fn len(&self) -> (n: usize)
        ensures
            n == self@.len(),
    {
        list_len(self)
    }

    /// The identifier at position `i`, or `None` past the end.
    pub fn get(&self, i: usize) -> (id: Option<Id>)
        ensures
            id == if i < self@.len() { Some(self@[i as int]) } else { None },
    {
        if i < list_len(self) {
            Some(list_get(self, i))
        } else {
            None
        }
    }

    /// The identifier at position `i`.
    pub fn at(&self, i: usize) -> (id: Id)
        requires
            i < self@.len(),
        ensures
            id == self@[i as int],
    {
        list_get(self, i)
    }

    /// The list that holds the elements of `ids` in the same order.
    pub fn from_vec(ids: &Vec<Id>) -> (list: Self)
        ensures
            list@ == ids@,
    {
        let mut list = list_new();
        let mut i: usize = 0;
        while i < ids.len()
            invariant
                i <= ids.len(),
                list@ == ids@.subrange(0, i as int),
            decreases ids.len() - i,
        {
            list_push(&mut list, ids[i]);
            i += 1;
            proof {
                assert(list@ =~= ids@.subrange(0, i as int));
            }
        }
        proof {
            assert(ids@.subrange(0, ids.len() as int) =~= ids@);
        }
        list
    }

    /// The elements of the list, in order, as a vector.
    pub fn to_vec(&self) -> (ids: Vec<Id>)
        ensures
            ids@ == self@,
    {
        let mut ids: Vec<Id> = Vec::new();
        let n = list_len(self);
        let mut i: usize = 0;
        while i < n
            invariant
                n == self@.len(),
                i <= n,
                ids@ == self@.subrange(0, i as int),
            decreases n - i,
        {
            ids.push(list_get(self, i));
            i += 1;
            proof {
                assert(ids@ =~= self@.subrange(0, i as int));
            }
        }
        proof {
            assert(self@.subrange(0, n as int) =~= self@);
        }
        ids
    }

    /// Whether `id` occurs in the list.
    pub fn contains(&self, id: Id) -> (found: bool)
        ensures
            found == self@.contains(id),
    {
        let n = list_len(self);
        let mut i: usize = 0;
        while i < n
            invariant
                n == self@.len(),
                i <= n,
                forall|j: int| 0 <= j < i ==> self@[j] != id,
            decreases n - i,
        {
            if list_get(self, i) == id {
                return true;
            }
            i += 1;
        }
        false
    }

    /// Whether two lists hold the same identifiers in the same order.
    pub fn same(&self, other: &IdList) -> (equal: bool)
        ensures
            equal == (self@ == other@),
    {
        let n = list_len(self);
        if n != list_len(other) {
            return false;
        }
        let mut i: usize = 0;
        while i < n
            invariant
                n == self@.len(),
                n == other@.len(),
                i <= n,
                forall|j: int| 0 <= j < i ==> self@[j] == other@[j],
            decreases n - i,
        {
            if list_get(self, i) != list_get(other, i) {
                return false;
            }
            i += 1;
        }
        proof {
            assert(self@ =~= other@);
        }
        true
    }
}

/// Whether each element of `s` is smaller than every later one.
pub open spec fn ascending(s: Seq<Id>) -> bool {
    forall|i: int, j: int| 0 <= i < j < s.len() ==> s[i] < s[j]
}

/// Two ascending sequences with the same members are the same sequence.
pub proof fn lemma_ascending_unique(a: Seq<Id>, b: Seq<Id>)
    requires
        ascending(a),
        ascending(b),
        forall|x: Id| a.contains(x) <==> b.contains(x),
    ensures
        a == b,
    decreases a.len(),
{
    if a.len() == 0 {
        if b.len() > 0 {
            assert(b.contains(b[0]));
            assert(a.contains(b[0]));
        }
        assert(a =~= b);
    } else {
        assert(a.contains(a[0]));
        assert(b.contains(a[0]));
        assert(b.len() > 0);
        assert(b.contains(b[0]));
        assert(a.contains(b[0]));
        let i = choose|i: int| 0 <= i < b.len() && b[i] == a[0];
        let j = choose|j: int| 0 <= j < a.len() && a[j] == b[0];
        assert(a[0] == b[0]) by {
            if i > 0 {
                assert(b[0] < b[i]);
            }
            if j > 0 {
                assert(a[0] < a[j]);
            }
        }
        let a1 = a.subrange(1, a.len() as int);
        let b1 = b.subrange(1, b.len() as int);
        assert forall|x: Id| a1.contains(x) <==> b1.contains(x) by {
            if a1.contains(x) {
                let k = choose|k: int| 0 <= k < a1.len() && a1[k] == x;
                assert(a[k + 1] == x);
                assert(a[0] < a[k + 1]);
                assert(a.contains(x));
                let m = choose|m: int| 0 <= m < b.len() && b[m] == x;
                assert(m != 0);
                assert(b1[m - 1] == x);
            }
            if b1.contains(x) {
                let k = choose|k: int| 0 <= k < b1.len() && b1[k] == x;
                assert(b[k + 1] == x);
                assert(b[0] < b[k + 1]);
                assert(b.contains(x));
                let m = choose|m: int| 0 <= m < a.len() && a[m] == x;
                assert(m != 0);
                assert(a1[m - 1] == x);
            }
        }
        assert(ascending(a1)) by {
            assert forall|p: int, q: int| 0 <= p < q < a1.len() implies a1[p] < a1[q] by {
                assert(a[p + 1] < a[q + 1]);
            }
        }
        assert(ascending(b1)) by {
            assert forall|p: int, q: int| 0 <= p < q < b1.len() implies b1[p] < b1[q] by {
                assert(b[p + 1] < b[q + 1]);
            }
        }
        lemma_ascending_unique(a1, b1);
        assert(a =~= seq![a[0]] + a1);
        assert(b =~= seq![b[0]] + b1);
    }
}

/// The members of `s.push(v)` are those of `s`, and `v`.
pub proof fn lemma_push_contains(s: Seq<Id>, v: Id)
    ensures
        forall|x: Id| s.push(v).contains(x) <==> (s.contains(x) || x == v),
{
    let t = s.push(v);
    assert forall|x: Id| t.contains(x) <==> (s.contains(x) || x == v) by {
        if t.contains(x) {
            let k = choose|k: int| 0 <= k < t.len() && t[k] == x;
            if k < s.len() {
                assert(s[k] == x);
            }
        }
        if s.contains(x) {
            let k = choose|k: int| 0 <= k < s.len() && s[k] == x;
            assert(t[k] == x);
        }
        if x == v {
            assert(t[s.len() as int] == x);
        }
    }
}

/// The members of the first `i + 1` elements are those of the first `i`, and
/// the element at `i`.
pub proof fn lemma_prefix_contains(s: Seq<Id>, i: int)
    requires
        0 <= i < s.len(),
    ensures
        forall|x: Id|
            s.subrange(0, i + 1).contains(x) <==> (s.subrange(0, i).contains(x) || x == s[i]),
{
    assert(s.subrange(0, i + 1) =~= s.subrange(0, i).push(s[i]));
    lemma_push_contains(s.subrange(0, i), s[i]);
}

/// An ascending sequence stays ascending when something larger than all of
/// its members is put at its end.
pub proof fn lemma_push_ascending(s: Seq<Id>, v: Id)
    requires
        ascending(s),
        forall|x: Id| s.contains(x) ==> x < v,
    ensures
        ascending(s.push(v)),
{
    let t = s.push(v);
    assert forall|p: int, q: int| 0 <= p < q < t.len() implies t[p] < t[q] by {
        if q == s.len() {
            assert(s.contains(s[p]));
        }
    }
}

/// Whether two sequences have a member in common.
pub open spec fn overlapping(a: Seq<Id>, b: Seq<Id>) -> bool {
    exists|x: Id| a.contains(x) && b.contains(x)
}

/// The ascending sequence `s` with `x` put in its place, if it is not a
/// member already.
pub open spec fn inserted(s: Seq<Id>, x: Id) -> Seq<Id>
    decreases s.len(),
{
    if s.len() == 0 {
        seq![x]
    } else if s.last() < x {
        s.push(x)
    } else if s.last() == x {
        s
    } else {
        inserted(s.drop_last(), x).push(s.last())
    }
}

/// The ascending sequence `a` with the elements of `b` put in their places.
pub open spec fn joined(a: Seq<Id>, b: Seq<Id>) -> Seq<Id>
    decreases b.len(),
{
    if b.len() == 0 {
        a
    } else {
        inserted(joined(a, b.drop_last()), b.last())
    }
}

/// `inserted(s, x)` is ascending, and its members are those of `s`, and `x`.
pub proof fn lemma_inserted(s: Seq<Id>, x: Id)
    requires
        ascending(s),
    ensures
        ascending(inserted(s, x)),
        forall|y: Id| inserted(s, x).contains(y) <==> (s.contains(y) || y == x),
        s.contains(x) ==> inserted(s, x) == s,
    decreases s.len(),
{
    let r = inserted(s, x);
    if s.len() == 0 {
        assert(r[0] == x);
        assert forall|y: Id| r.contains(y) <==> (s.contains(y) || y == x) by {
            if r.contains(y) {
                let k = choose|k: int| 0 <= k < r.len() && r[k] == y;
            }
        }
    } else {
        let front = s.drop_last();
        let last = s.last();
        assert(s =~= front.push(last));
        lemma_push_contains(front, last);
        assert forall|y: Id| front.contains(y) implies y < last by {
            let k = choose|k: int| 0 <= k < front.len() && front[k] == y;
            assert(s[k] < s[s.len() - 1]);
        }
        if last < x {
            lemma_push_contains(s, x);
            assert forall|y: Id| s.contains(y) implies y < x by {}
            lemma_push_ascending(s, x);
        } else if last == x {
        } else {
            assert(ascending(front)) by {
                assert forall|i: int, j: int| 0 <= i < j < front.len() implies front[i]
                    < front[j] by {
                    assert(s[i] < s[j]);
                }
            }
            lemma_inserted(front, x);
            let mid = inserted(front, x);
            assert forall|y: Id| mid.contains(y) implies y < last by {
                assert(front.contains(y) || y == x);
            }
            lemma_push_ascending(mid, last);
            lemma_push_contains(mid, last);
            assert(r == mid.push(last));
            assert forall|y: Id| r.contains(y) <==> (s.contains(y) || y == x) by {
                assert(r.contains(y) <==> (mid.contains(y) || y == last));
                assert(mid.contains(y) <==> (front.contains(y) || y == x));
                assert(s.contains(y) <==> (front.contains(y) || y == last));
            }
            if s.contains(x) {
                assert(front.contains(x));
                assert(mid == front);
            }
        }
    }
}

/// An ascending sequence whose members are those of `a` and `b` is
/// `joined(a, b)`.
pub proof fn lemma_joined_unique(a: Seq<Id>, b: Seq<Id>, u: Seq<Id>)
    requires
        ascending(a),
        ascending(u),
        forall|y: Id| u.contains(y) <==> (a.contains(y) || b.contains(y)),
    ensures
        u == joined(a, b),
{
    lemma_joined(a, b);
    lemma_ascending_unique(u, joined(a, b));
}

/// `joined(a, b)` is ascending, and its members are those of `a` and `b`.
pub proof fn lemma_joined(a: Seq<Id>, b: Seq<Id>)
    requires
        ascending(a),
    ensures
        ascending(joined(a, b)),
        forall|y: Id| joined(a, b).contains(y) <==> (a.contains(y) || b.contains(y)),
    decreases b.len(),
{
    if b.len() > 0 {
        let front = b.drop_last();
        lemma_joined(a, front);
        lemma_inserted(joined(a, front), b.last());
        assert(b =~= front.push(b.last()));
        lemma_push_contains(front, b.last());
    }
}

/// The position of the first class at or after `from` that has a member in
/// common with `class`; the number of classes if there is none.
pub open spec fn first_overlap(classes: Seq<Seq<Id>>, class: Seq<Id>, from: int) -> int
    decreases classes.len() - from,
{
    if from < 0 || from >= classes.len() {
        classes.len() as int
    } else if overlapping(classes[from], class) {
        from
    } else {
        first_overlap(classes, class, from + 1)
    }
}

/// The classes after one more class has been taken in: it is merged into the
/// first class that it shares a member with, or put last if there is none.
pub open spec fn absorbed(classes: Seq<Seq<Id>>, class: Seq<Id>) -> Seq<Seq<Id>> {
    let k = first_overlap(classes, class, 0);
    if k < classes.len() {
        classes.update(k, joined(classes[k], class))
    } else {
        classes.push(class)
    }
}

/// The classes after one sweep: the given ones are taken in one after the
/// other, each merged into the first earlier class that it overlaps.
pub open spec fn swept(classes: Seq<Seq<Id>>) -> Seq<Seq<Id>>
    decreases classes.len(),
{
    if classes.len() == 0 {
        Seq::empty()
    } else {
        absorbed(swept(classes.drop_last()), classes.last())
    }
}

/// Where no class from `from` up to `k` overlaps and the class at `k` does,
/// or `k` is the number of classes, `first_overlap` from `from` is `k`.
pub proof fn lemma_first_overlap_at(classes: Seq<Seq<Id>>, class: Seq<Id>, from: int, k: int)
    requires
        0 <= from <= k <= classes.len(),
        forall|j: int| from <= j < k ==> !overlapping(#[trigger] classes[j], class),
        k < classes.len() ==> overlapping(classes[k], class),
    ensures
        first_overlap(classes, class, from) == k,
    decreases k - from,
{
    if from < k {
        assert(!overlapping(classes[from], class));
        lemma_first_overlap_at(classes, class, from + 1, k);
    }
}

/// `first_overlap` from `from` lies between `from` and the number of classes.
pub proof fn lemma_first_overlap_range(classes: Seq<Seq<Id>>, class: Seq<Id>, from: int)
    requires
        0 <= from <= classes.len(),
    ensures
        from <= first_overlap(classes, class, from) <= classes.len(),
    decreases classes.len() - from,
{
    if from < classes.len() && !overlapping(classes[from], class) {
        lemma_first_overlap_range(classes, class, from + 1);
    }
}

/// The swept classes are ascending, and every member of one of them is a
/// member of one of the classes that were swept.
pub proof fn lemma_swept_members(classes: Seq<Seq<Id>>)
    requires
        forall|i: int| 0 <= i < classes.len() ==> ascending(#[trigger] classes[i]),
    ensures
        forall|k: int| 0 <= k < swept(classes).len() ==> ascending(#[trigger] swept(classes)[k]),
        forall|k: int, x: Id|
            0 <= k < swept(classes).len() && #[trigger] swept(classes)[k].contains(x)
                ==> exists|i: int| 0 <= i < classes.len() && #[trigger] classes[i].contains(x),
    decreases classes.len(),
{
    if classes.len() > 0 {
        let front = classes.drop_last();
        let last = classes.last();
        let acc = swept(front);
        assert forall|i: int| 0 <= i < front.len() implies ascending(#[trigger] front[i]) by {
            assert(front[i] == classes[i]);
        }
        lemma_swept_members(front);
        let j = first_overlap(acc, last, 0);
        let out = swept(classes);
        lemma_first_overlap_range(acc, last, 0);
        if j < acc.len() {
            assert(out == acc.update(j, joined(acc[j], last)));
            lemma_joined(acc[j], last);
        } else {
            assert(out == acc.push(last));
        }
        assert(ascending(last)) by {
            assert(classes[classes.len() - 1] == last);
        }
        assert forall|k: int| 0 <= k < out.len() implies ascending(#[trigger] out[k]) by {
            if j < acc.len() {
                if k != j {
                    assert(out[k] == acc[k]);
                }
            } else {
                if k < acc.len() {
                    assert(out[k] == acc[k]);
                }
            }
        }
        assert forall|k: int, x: Id| 0 <= k < out.len() && #[trigger] out[k].contains(
            x,
        ) implies exists|i: int| 0 <= i < classes.len() && #[trigger] classes[i].contains(x) by {
            if last.contains(x) {
                assert(classes[classes.len() - 1].contains(x));
            } else {
                assert(0 <= k < acc.len() && acc[k].contains(x));
                let i = choose|i: int| 0 <= i < front.len() && #[trigger] front[i].contains(x);
                assert(classes[i].contains(x));
            }
        }
    }
}

/// A set of identifiers: each member once, in ascending order.
pub struct IdSet {
    elements: IdList,
}

impl View for IdSet {
    type V = Seq<Id>;

    closed spec fn view(&self) -> Seq<Id> {
        self.elements@
    }
}

impl Clone for IdSet {
    fn clone(&self) -> (copy: Self)
        ensures
            copy@ == self@,
    {
        IdSet { elements: list_clone(&self.elements) }
    }
}

impl IdSet {
    /// The invariant of a set: its members stand in ascending order, each once.
    pub open spec fn wf(&self) -> bool {
        ascending(self@)
    }

    /// Whether `id` is a member.
    pub open spec fn has(&self, id: Id) -> bool {
        self@.contains(id)
    }

    /// Where `id` stands among the members, or where it would have to go.
    fn search(&self, id: Id) -> (r: Result<usize, usize>)
        requires
            self.wf(),
        ensures
            match r {
                Ok(i) => i < self@.len() && self@[i as int] == id,
                Err(i) => i <= self@.len() && !self@.contains(id) && (forall|j: int|
                    0 <= j < i ==> self@[j] < id) && (forall|j: int|
                    i <= j < self@.len() ==> id < self@[j]),
            },
    {
        let mut lo: usize = 0;
        let mut hi: usize = list_len(&self.elements);
        while lo < hi
            invariant
                self.wf(),
                lo <= hi <= self@.len(),
                forall|j: int| 0 <= j < lo ==> self@[j] < id,
                forall|j: int| hi <= j < self@.len() ==> id < self@[j],
            decreases hi - lo,
        {
            let mid = lo + (hi - lo) / 2;
            let v = list_get(&self.elements, mid);
            if v == id {
                return Ok(mid);
            } else if v < id {
                lo = mid + 1;
            } else {
                hi = mid;
            }
        }
        Err(lo)
    }

    /// The set of the members of a list that is already in ascending order,
    /// possibly with repeats: each run of equal neighbours becomes one member.
    pub fn from_sorted_list(sorted: IdList) -> (set: Self)
        requires
            forall|i: int, j: int| 0 <= i < j < sorted@.len() ==> sorted@[i] <= sorted@[j],
        ensures
            set.wf(),
            forall|x: Id| set@.contains(x) <==> sorted@.contains(x),
    {
        let n = list_len(&sorted);
        let mut new = list_new();
        let mut i: usize = 0;
        while i < n
            invariant
                n == sorted@.len(),
                i <= n,
                forall|p: int, q: int| 0 <= p < q < sorted@.len() ==> sorted@[p] <= sorted@[q],
                ascending(new@),
                forall|x: Id| new@.contains(x) <==> sorted@.subrange(0, i as int).contains(x),
                i > 0 ==> new@.len() > 0 && new@.last() == sorted@[i - 1],
                i == 0 ==> new@.len() == 0,
            decreases n - i,
        {
            let v = list_get(&sorted, i);
            let ghost before = new@;
            let ghost prefix = sorted@.subrange(0, i as int);
            let ghost next = sorted@.subrange(0, i + 1);
            if i == 0 || list_get(&sorted, i - 1) != v {
                list_push(&mut new, v);
                proof {
                    assert forall|p: int, q: int| 0 <= p < q < new@.len() implies new@[p]
                        < new@[q] by {
                        if q == new@.len() - 1 {
                            assert(before.contains(before[p]));
                            let k = choose|k: int| 0 <= k < prefix.len() && prefix[k] == before[p];
                            assert(sorted@[k] <= sorted@[i - 1]);
                            assert(before[p] <= before.last());
                        }
                    }
                    assert forall|x: Id| new@.contains(x) <==> next.contains(x) by {
                        if new@.contains(x) {
                            let k = choose|k: int| 0 <= k < new@.len() && new@[k] == x;
                            if k < before.len() {
                                assert(before.contains(x));
                                let m = choose|m: int| 0 <= m < prefix.len() && prefix[m] == x;
                                assert(next[m] == x);
                            } else {
                                assert(next[i as int] == x);
                            }
                        }
                        if next.contains(x) {
                            let k = choose|k: int| 0 <= k < next.len() && next[k] == x;
                            if k < i {
                                assert(prefix[k] == x);
                                assert(before.contains(x));
                                let m = choose|m: int| 0 <= m < before.len() && before[m] == x;
                                assert(new@[m] == x);
                            } else {
                                assert(new@[new@.len() - 1] == x);
                            }
                        }
                    }
                }
            } else {
                proof {
                    assert forall|x: Id| new@.contains(x) <==> next.contains(x) by {
                        if new@.contains(x) {
                            let m = choose|m: int| 0 <= m < prefix.len() && prefix[m] == x;
                            assert(next[m] == x);
                        }
                        if next.contains(x) {
                            let k = choose|k: int| 0 <= k < next.len() && next[k] == x;
                            if k < i {
                                assert(prefix[k] == x);
                            } else {
                                assert(prefix[i - 1] == x);
                            }
                        }
                    }
                }
            }
            i += 1;
        }
        proof {
            assert(sorted@.subrange(0, n as int) =~= sorted@);
        }
        IdSet { elements: new }
    }

    /// The set with no member.
    pub fn empty() -> (set: Self)
        ensures
            set.wf(),
            set@ == Seq::<Id>::empty(),
    {
        IdSet { elements: list_new() }
    }

    /// The set whose one member is `element`.
    pub fn singleton(element: Id) -> (set: Self)
        ensures
            set.wf(),
            set@ == seq![element],
    {
        let mut elements = list_new();
        list_push(&mut elements, element);
        proof {
            assert(elements@ =~= seq![element]);
        }
        IdSet { elements }
    }

    /// The number of members.
    pub fn len(&self) -> (n: usize)
        ensures
            n == self@.len(),
    {
        list_len(&self.elements)
    }

    /// Whether the set has no member.
    pub fn is_empty(&self) -> (empty: bool)
        ensures
            empty == (self@.len() == 0),
    {
        list_len(&self.elements) == 0
    }

    /// The member at position `i` in ascending order.
    pub fn at(&self, i: usize) -> (id: Id)
        requires
            i < self@.len(),
        ensures
            id == self@[i as int],
    {
        list_get(&self.elements, i)
    }

    /// The members as a list, in ascending order.
    pub fn as_list(&self) -> (list: &IdList)
        ensures
            list@ == self@,
    {
        &self.elements
    }

    /// The members in ascending order.
    pub fn to_vec(&self) -> (ids: Vec<Id>)
        ensures
            ids@ == self@,
    {
        self.elements.to_vec()
    }

    /// Whether `element` is a member.
    pub fn contains(&self, element: Id) -> (found: bool)
        ensures
            found == self@.contains(element),
    {
        self.elements.contains(element)
    }

    /// Whether two sets have the same members.
    pub fn same(&self, other: &IdSet) -> (equal: bool)
        ensures
            equal == (self@ == other@),
    {
        self.elements.same(&other.elements)
    }

    /// The set with `element` added.
    pub fn with(&self, element: Id) -> (set: Self)
        requires
            self.wf(),
        ensures
            set.wf(),
            forall|x: Id| set@.contains(x) <==> (self@.contains(x) || x == element),
            self@.contains(element) ==> set@ == self@,
            !self@.contains(element) ==> set@.len() == self@.len() + 1,
    {
        match self.search(element) {
            Ok(_) => self.clone(),
            Err(index) => {
                let n = list_len(&self.elements);
                let mut new = list_new();
                let mut i: usize = 0;
                while i < index
                    invariant
                        index <= n == self@.len(),
                        i <= index,
                        new@ == self@.subrange(0, i as int),
                    decreases index - i,
                {
                    list_push(&mut new, list_get(&self.elements, i));
                    i += 1;
                    proof {
                        assert(new@ =~= self@.subrange(0, i as int));
                    }
                }
                list_push(&mut new, element);
                while i < n
                    invariant
                        index <= i <= n == self@.len(),
                        new@ == self@.subrange(0, index as int).push(element) + self@.subrange(
                            index as int,
                            i as int,
                        ),
                    decreases n - i,
                {
                    list_push(&mut new, list_get(&self.elements, i));
                    i += 1;
                    proof {
                        assert(new@ =~= self@.subrange(0, index as int).push(element)
                            + self@.subrange(index as int, i as int));
                    }
                }
                proof {
                    let r = new@;
                    assert(r =~= self@.insert(index as int, element));
                    assert forall|p: int, q: int| 0 <= p < q < r.len() implies r[p] < r[q] by {
                        if p < index && q > index {
                            assert(r[p] == self@[p]);
                            assert(r[q] == self@[q - 1]);
                        }
                    }
                    assert forall|x: Id| r.contains(x) <==> (self@.contains(x) || x
                        == element) by {
                        if r.contains(x) {
                            let k = choose|k: int| 0 <= k < r.len() && r[k] == x;
                            if k < index {
                                assert(self@[k] == x);
                            } else if k > index {
                                assert(self@[k - 1] == x);
                            }
                        }
                        if self@.contains(x) {
                            let k = choose|k: int| 0 <= k < self@.len() && self@[k] == x;
                            if k < index {
                                assert(r[k] == x);
                            } else {
                                assert(r[k + 1] == x);
                            }
                        }
                        if x == element {
                            assert(r[index as int] == x);
                        }
                    }
                }
                IdSet { elements: new }
            },
        }
    }

    /// The set with `element` removed.
    pub fn without(&self, element: Id) -> (set: Self)
        requires
            self.wf(),
        ensures
            set.wf(),
            forall|x: Id| set@.contains(x) <==> (self@.contains(x) && x != element),
            !self@.contains(element) ==> set@ == self@,
            self@.contains(element) ==> set@.len() + 1 == self@.len(),
    {
        match self.search(element) {
            Err(_) => self.clone(),
            Ok(index) => {
                let n = list_len(&self.elements);
                let mut new = list_new();
                let mut i: usize = 0;
                while i < index
                    invariant
                        index < n == self@.len(),
                        i <= index,
                        new@ == self@.subrange(0, i as int),
                    decreases index - i,
                {
                    list_push(&mut new, list_get(&self.elements, i));
                    i += 1;
                    proof {
                        assert(new@ =~= self@.subrange(0, i as int));
                    }
                }
                i = index + 1;
                while i < n
                    invariant
                        index < i <= n == self@.len(),
                        new@ == self@.subrange(0, index as int) + self@.subrange(
                            index + 1,
                            i as int,
                        ),
                    decreases n - i,
                {
                    list_push(&mut new, list_get(&self.elements, i));
                    i += 1;
                    proof {
                        assert(new@ =~= self@.subrange(0, index as int) + self@.subrange(
                            index + 1,
                            i as int,
                        ));
                    }
                }
                proof {
                    let r = new@;
                    assert(r =~= self@.remove(index as int));
                    assert forall|p: int, q: int| 0 <= p < q < r.len() implies r[p] < r[q] by {
                        let pp = if p < index { p } else { p + 1 };
                        let qq = if q < index { q } else { q + 1 };
                        assert(r[p] == self@[pp]);
                        assert(r[q] == self@[qq]);
                    }
                    assert forall|x: Id| r.contains(x) <==> (self@.contains(x) && x
                        != element) by {
                        if r.contains(x) {
                            let k = choose|k: int| 0 <= k < r.len() && r[k] == x;
                            let kk = if k < index { k } else { k + 1 };
                            assert(self@[kk] == x);
                            if kk < index {
                                assert(self@[kk] < self@[index as int]);
                            } else {
                                assert(self@[index as int] < self@[kk]);
                            }
                        }
                        if self@.contains(x) && x != element {
                            let k = choose|k: int| 0 <= k < self@.len() && self@[k] == x;
                            if k < index {
                                assert(r[k] == x);
                            } else {
                                assert(r[k - 1] == x);
                            }
                        }
                    }
                }
                IdSet { elements: new }
            },
        }
    }
    /// The members, as a mathematical set.
    pub open spec fn members(&self) -> Set<Id> {
        self@.to_set()
    }

    /// The set of the elements of `list`, in whatever order and however often
    /// they occur there.
    pub fn from_list(list: &IdList) -> (set: Self)
        ensures
            set.wf(),
            forall|x: Id| set@.contains(x) <==> list@.contains(x),
    {
        let n = list_len(list);
        let mut set = IdSet::empty();
        let mut i: usize = 0;
        while i < n
            invariant
                n == list@.len(),
                i <= n,
                set.wf(),
                forall|x: Id| set@.contains(x) <==> list@.subrange(0, i as int).contains(x),
            decreases n - i,
        {
            proof {
                lemma_prefix_contains(list@, i as int);
            }
            set = set.with(list_get(list, i));
            i += 1;
        }
        proof {
            assert(list@.subrange(0, n as int) =~= list@);
        }
        set
    }

    /// The set of the elements of `ids`.
    pub fn from_vec(ids: &Vec<Id>) -> (set: Self)
        ensures
            set.wf(),
            forall|x: Id| set@.contains(x) <==> ids@.contains(x),
    {
        let list = IdList::from_vec(ids);
        IdSet::from_list(&list)
    }

    /// The members of either set.
    pub fn union(&self, other: &Self) -> (set: Self)
        requires
            self.wf(),
        ensures
            set.wf(),
            forall|x: Id| set@.contains(x) <==> (self@.contains(x) || other@.contains(x)),
    {
        let n = list_len(&other.elements);
        let mut set = self.clone();
        let mut i: usize = 0;
        while i < n
            invariant
                n == other@.len(),
                i <= n,
                set.wf(),
                forall|x: Id|
                    set@.contains(x) <==> (self@.contains(x) || other@.subrange(
                        0,
                        i as int,
                    ).contains(x)),
            decreases n - i,
        {
            proof {
                lemma_prefix_contains(other@, i as int);
            }
            set = set.with(list_get(&other.elements, i));
            i += 1;
        }
        proof {
            assert(other@.subrange(0, n as int) =~= other@);
        }
        set
    }

    /// Whether the two sets have a member in common.
    pub fn overlaps(&self, other: &Self) -> (found: bool)
        ensures
            found == overlapping(self@, other@),
    {
        let n = list_len(&self.elements);
        let mut i: usize = 0;
        while i < n
            invariant
                n == self@.len(),
                i <= n,
                forall|j: int| 0 <= j < i ==> !other@.contains(self@[j]),
            decreases n - i,
        {
            if other.contains(list_get(&self.elements, i)) {
                proof {
                    assert(self@.contains(self@[i as int]));
                }
                return true;
            }
            i += 1;
        }
        proof {
            if overlapping(self@, other@) {
                let x = choose|x: Id| self@.contains(x) && other@.contains(x);
                let k = choose|k: int| 0 <= k < self@.len() && self@[k] == x;
                assert(!other@.contains(self@[k]));
            }
        }
        false
    }

    /// The members of `self` that are not members of `other`.
    pub fn difference(&self, other: &Self) -> (set: Self)
        requires
            self.wf(),
        ensures
            set.wf(),
            forall|x: Id| set@.contains(x) <==> (self@.contains(x) && !other@.contains(x)),
    {
        let n = list_len(&self.elements);
        let mut new = list_new();
        let mut i: usize = 0;
        while i < n
            invariant
                n == self@.len(),
                i <= n,
                self.wf(),
                ascending(new@),
                forall|x: Id|
                    new@.contains(x) <==> (self@.subrange(0, i as int).contains(x)
                        && !other@.contains(x)),
            decreases n - i,
        {
            let v = list_get(&self.elements, i);
            let ghost before = new@;
            proof {
                lemma_prefix_contains(self@, i as int);
            }
            if !other.contains(v) {
                proof {
                    lemma_push_contains(before, v);
                    assert forall|x: Id| before.contains(x) implies x < v by {
                        let k = choose|k: int|
                            0 <= k < self@.subrange(0, i as int).len() && self@.subrange(
                                0,
                                i as int,
                            )[k] == x;
                        assert(self@[k] < self@[i as int]);
                    }
                    lemma_push_ascending(before, v);
                }
                list_push(&mut new, v);
            }
            proof {
                assert forall|x: Id|
                    new@.contains(x) <==> (self@.subrange(0, i + 1).contains(x)
                        && !other@.contains(x)) by {
                    if x == v {
                    } else {
                        assert(new@.contains(x) <==> before.contains(x));
                    }
                }
            }
            i += 1;
        }
        proof {
            assert(self@.subrange(0, n as int) =~= self@);
        }
        IdSet { elements: new }
    }

    /// Each member but the last, paired with the member that follows it.
    pub fn pairs(&self) -> (out: Vec<(Id, Id)>)
        ensures
            self@.len() == 0 ==> out@.len() == 0,
            self@.len() > 0 ==> out@.len() == self@.len() - 1,
            forall|i: int|
                0 <= i < out@.len() ==> i + 1 < self@.len() && out@[i] == (self@[i], self@[i + 1]),
    {
        let n = list_len(&self.elements);
        let mut out: Vec<(Id, Id)> = Vec::new();
        if n == 0 {
            return out;
        }
        let mut i: usize = 1;
        while i < n
            invariant
                n == self@.len(),
                1 <= i <= n,
                out@.len() == i - 1,
                forall|j: int|
                    0 <= j < out@.len() ==> j + 1 < self@.len() && out@[j] == (
                        self@[j],
                        self@[j + 1],
                    ),
            decreases n - i,
        {
            let left = list_get(&self.elements, i - 1);
            let right = list_get(&self.elements, i);
            out.push((left, right));
            i += 1;
        }
        out
    }

    /// Merges classes that share members, until no two classes of the
    /// result share one: the classes of the result are pairwise disjoint,
    /// each given class lies in one of them, and they have no member that
    /// no given class has.
    pub fn combine_overlapping(classes: &Vec<IdSet>) -> (merged: Vec<IdSet>)
        requires
            forall|i: int| 0 <= i < classes@.len() ==> (#[trigger] classes@[i]).wf(),
        ensures
            forall|k: int| 0 <= k < merged@.len() ==> (#[trigger] merged@[k]).wf(),
            class_views(merged@) == combined(class_views(classes@)),
            pairwise_disjoint(class_views(merged@)),
            forall|i: int|
                0 <= i < classes@.len() ==> lies_in(
                    #[trigger] class_views(classes@)[i],
                    class_views(merged@),
                ),
            forall|k: int, x: Id|
                0 <= k < merged@.len() && #[trigger] class_views(merged@)[k].contains(x)
                    ==> exists|i: int|
                    0 <= i < classes@.len() && #[trigger] class_views(classes@)[i].contains(x),
    {
        let ghost given = class_views(classes@);
        proof {
            assert forall|i: int| 0 <= i < given.len() implies ascending(#[trigger] given[i]) by {
                assert(classes@[i].wf());
            }
            lemma_combined_members(given);
            lemma_combined_disjoint(given);
            lemma_combined_covers(given);
        }
        let mut size = classes.len();
        let mut current = IdSet::sweep(classes);
        while current.len() < size
            invariant
                forall|k: int| 0 <= k < current@.len() ==> (#[trigger] current@[k]).wf(),
                combined(given) == if current@.len() < size {
                    combined(class_views(current@))
                } else {
                    class_views(current@)
                },
            decreases size,
        {
            size = current.len();
            current = IdSet::sweep(&current);
        }
        current
    }

    /// One sweep over the classes: they are taken in one after the other,
    /// and each is merged into the first class already taken in that it
    /// overlaps, or kept as a class of its own if there is none.
    fn sweep(classes: &Vec<IdSet>) -> (merged: Vec<IdSet>)
        requires
            forall|i: int| 0 <= i < classes@.len() ==> (#[trigger] classes@[i]).wf(),
        ensures
            forall|k: int| 0 <= k < merged@.len() ==> (#[trigger] merged@[k]).wf(),
            class_views(merged@) == swept(class_views(classes@)),
    {
        let mut merged: Vec<IdSet> = Vec::new();
        let mut i: usize = 0;
        proof {
            assert(class_views(classes@).subrange(0, 0) =~= Seq::<Seq<Id>>::empty());
            assert(class_views(merged@) =~= Seq::<Seq<Id>>::empty());
        }
        while i < classes.len()
            invariant
                i <= classes.len(),
                forall|j: int| 0 <= j < classes@.len() ==> (#[trigger] classes@[j]).wf(),
                forall|k: int| 0 <= k < merged@.len() ==> (#[trigger] merged@[k]).wf(),
                class_views(merged@) == swept(class_views(classes@).subrange(0, i as int)),
            decreases classes.len() - i,
        {
            let class = &classes[i];
            let ghost before = class_views(merged@);
            let ghost taken = class_views(classes@).subrange(0, i as int);
            let ghost next = class_views(classes@).subrange(0, i + 1);
            proof {
                assert(next.drop_last() =~= taken);
                assert(next.last() == class@);
            }
            let mut k: usize = 0;
            while k < merged.len() && !class.overlaps(&merged[k])
                invariant
                    k <= merged.len(),
                    before == class_views(merged@),
                    forall|j: int| 0 <= j < k ==> !overlapping(#[trigger] before[j], class@),
                decreases merged.len() - k,
            {
                proof {
                    assert(!overlapping(before[k as int], class@)) by {
                        if overlapping(before[k as int], class@) {
                            let x = choose|x: Id|
                                before[k as int].contains(x) && class@.contains(x);
                            assert(class@.contains(x) && merged@[k as int]@.contains(x));
                        }
                    }
                }
                k += 1;
            }
            if k < merged.len() {
                proof {
                    let x = choose|x: Id| class@.contains(x) && merged@[k as int]@.contains(x);
                    assert(before[k as int].contains(x) && class@.contains(x));
                    lemma_first_overlap_at(before, class@, 0, k as int);
                }
                let joined_class = merged[k].union(class);
                proof {
                    lemma_joined_unique(before[k as int], class@, joined_class@);
                }
                merged.set(k, joined_class);
                proof {
                    assert(class_views(merged@) =~= before.update(
                        k as int,
                        joined(before[k as int], class@),
                    ));
                }
            } else {
                proof {
                    lemma_first_overlap_at(before, class@, 0, k as int);
                }
                merged.push(class.clone());
                proof {
                    assert(class_views(merged@) =~= before.push(class@));
                }
            }
            i += 1;
        }
        proof {
            assert(class_views(classes@).subrange(0, classes@.len() as int) =~= class_views(
                classes@,
            ));
        }
        merged
    }
}

/// The classes that remain when sweeps are made until a sweep merges
/// nothing.
pub open spec fn combined(classes: Seq<Seq<Id>>) -> Seq<Seq<Id>>
    decreases classes.len(),
{
    let once = swept(classes);
    if once.len() < classes.len() {
        combined(once)
    } else {
        once
    }
}

/// Whether no two of the classes share a member.
pub open spec fn pairwise_disjoint(classes: Seq<Seq<Id>>) -> bool {
    forall|i: int, j: int|
        0 <= i < j < classes.len() ==> !overlapping(#[trigger] classes[i], #[trigger] classes[j])
}

/// Whether every member of `a` is a member of `b`.
pub open spec fn within(a: Seq<Id>, b: Seq<Id>) -> bool {
    forall|x: Id| a.contains(x) ==> b.contains(x)
}

/// Whether the class `a` lies in one of the classes.
pub open spec fn lies_in(a: Seq<Id>, classes: Seq<Seq<Id>>) -> bool {
    exists|k: int| 0 <= k < classes.len() && within(a, #[trigger] classes[k])
}

/// Where the search for an overlapping class finds none, no class from
/// `from` on overlaps.
pub proof fn lemma_overlap_none(classes: Seq<Seq<Id>>, class: Seq<Id>, from: int)
    requires
        0 <= from <= classes.len(),
        first_overlap(classes, class, from) >= classes.len(),
    ensures
        forall|j: int| from <= j < classes.len() ==> !overlapping(#[trigger] classes[j], class),
    decreases classes.len() - from,
{
    if from < classes.len() {
        lemma_overlap_none(classes, class, from + 1);
    }
}

/// A sweep leaves no more classes than it is given; and if it leaves as
/// many, it changes nothing, and no two of the classes share a member.
pub proof fn lemma_swept_length(classes: Seq<Seq<Id>>)
    ensures
        swept(classes).len() <= classes.len(),
        swept(classes).len() == classes.len() ==> swept(classes) == classes && pairwise_disjoint(
            classes,
        ),
    decreases classes.len(),
{
    if classes.len() == 0 {
        assert(swept(classes) =~= classes);
    } else {
        let front = classes.drop_last();
        let last = classes.last();
        let acc = swept(front);
        lemma_swept_length(front);
        lemma_first_overlap_range(acc, last, 0);
        let k = first_overlap(acc, last, 0);
        if k >= acc.len() {
            assert(swept(classes) == acc.push(last));
            if acc.len() == front.len() {
                assert(classes =~= front.push(last));
                lemma_overlap_none(acc, last, 0);
                assert forall|i: int, j: int| 0 <= i < j < classes.len() implies !overlapping(
                    #[trigger] classes[i],
                    #[trigger] classes[j],
                ) by {
                    if j < front.len() {
                        assert(front[i] == classes[i] && front[j] == classes[j]);
                    } else {
                        assert(acc[i] == classes[i]);
                    }
                }
            }
        } else {
            assert(swept(classes) == acc.update(k, joined(acc[k], last)));
        }
    }
}

/// Each class that a sweep is given lies in one of the classes that it
/// leaves.
pub proof fn lemma_swept_covers(classes: Seq<Seq<Id>>)
    requires
        forall|i: int| 0 <= i < classes.len() ==> ascending(#[trigger] classes[i]),
    ensures
        forall|i: int| 0 <= i < classes.len() ==> lies_in(#[trigger] classes[i], swept(classes)),
    decreases classes.len(),
{
    if classes.len() > 0 {
        let front = classes.drop_last();
        let last = classes.last();
        let acc = swept(front);
        assert forall|i: int| 0 <= i < front.len() implies ascending(#[trigger] front[i]) by {
            assert(front[i] == classes[i]);
        }
        lemma_swept_covers(front);
        lemma_swept_members(front);
        lemma_first_overlap_range(acc, last, 0);
        let k = first_overlap(acc, last, 0);
        let out = swept(classes);
        if k < acc.len() {
            assert(out == acc.update(k, joined(acc[k], last)));
            lemma_joined(acc[k], last);
        } else {
            assert(out == acc.push(last));
        }
        assert forall|i: int| 0 <= i < classes.len() implies lies_in(
            #[trigger] classes[i],
            out,
        ) by {
            if i < front.len() {
                assert(front[i] == classes[i]);
                assert(lies_in(front[i], acc));
                let j = choose|j: int| 0 <= j < acc.len() && within(front[i], #[trigger] acc[j]);
                if k < acc.len() && j == k {
                    assert(within(classes[i], out[k]));
                } else {
                    assert(out[j] == acc[j]);
                    assert(within(classes[i], out[j]));
                }
            } else {
                assert(classes[i] == last);
                if k < acc.len() {
                    assert(within(last, out[k]));
                } else {
                    assert(out[acc.len() as int] == last);
                    assert(within(last, out[acc.len() as int]));
                }
            }
        }
    }
}

/// The combined classes are ascending, and every member of one of them is a
/// member of one of the classes that were combined.
pub proof fn lemma_combined_members(classes: Seq<Seq<Id>>)
    requires
        forall|i: int| 0 <= i < classes.len() ==> ascending(#[trigger] classes[i]),
    ensures
        forall|k: int| 0 <= k < combined(classes).len() ==> ascending(#[trigger] combined(classes)[k]),
        forall|k: int, x: Id|
            0 <= k < combined(classes).len() && #[trigger] combined(classes)[k].contains(x)
                ==> exists|i: int| 0 <= i < classes.len() && #[trigger] classes[i].contains(x),
    decreases classes.len(),
{
    let once = swept(classes);
    lemma_swept_members(classes);
    if once.len() < classes.len() {
        lemma_combined_members(once);
        let out = combined(classes);
        assert(out == combined(once));
        assert forall|k: int, x: Id| 0 <= k < out.len() && #[trigger] out[k].contains(
            x,
        ) implies exists|i: int| 0 <= i < classes.len() && #[trigger] classes[i].contains(x) by {
            let j = choose|j: int| 0 <= j < once.len() && #[trigger] once[j].contains(x);
            assert(once[j].contains(x));
        }
    }
}

/// No two of the combined classes share a member.
pub proof fn lemma_combined_disjoint(classes: Seq<Seq<Id>>)
    ensures
        pairwise_disjoint(combined(classes)),
    decreases classes.len(),
{
    let once = swept(classes);
    lemma_swept_length(classes);
    if once.len() < classes.len() {
        lemma_combined_disjoint(once);
    }
}

/// Each class lies in one of the combined classes.
pub proof fn lemma_combined_covers(classes: Seq<Seq<Id>>)
    requires
        forall|i: int| 0 <= i < classes.len() ==> ascending(#[trigger] classes[i]),
    ensures
        forall|i: int| 0 <= i < classes.len() ==> lies_in(#[trigger] classes[i], combined(classes)),
    decreases classes.len(),
{
    let once = swept(classes);
    lemma_swept_covers(classes);
    lemma_swept_members(classes);
    if once.len() < classes.len() {
        lemma_combined_covers(once);
        let out = combined(once);
        assert forall|i: int| 0 <= i < classes.len() implies lies_in(
            #[trigger] classes[i],
            out,
        ) by {
            let j = choose|j: int| 0 <= j < once.len() && within(classes[i], #[trigger] once[j]);
            assert(lies_in(once[j], out));
            let k = choose|k: int| 0 <= k < out.len() && within(once[j], #[trigger] out[k]);
            assert(within(classes[i], out[k]));
        }
    }
}

/// The members of each of a sequence of classes.
pub open spec fn class_views(classes: Seq<IdSet>) -> Seq<Seq<Id>> {
    Seq::new(classes.len(), |i: int| classes[i]@)
}

} // verus!
