use vstd::prelude::*;

use crate::posting::item::{Posting, PostingV};
use crate::posting::positions::sorted_union;
use crate::posting::spec::{
    count_doc, docs_nondecreasing, docs_strictly_increasing, has_doc, lemma_count_single,
    lemma_count_zero, lemma_take_step, max_weight_of, merged_from, positions_of,
    positions_strictly_increasing, views, weight_of, weights_bounded,
};
use crate::types::{DocId, Position};

verus! {

/// Mathematical value of a posting list.
pub ghost struct PostingListV {
    pub items: Seq<PostingV>,
    pub max_weight: u16,
}

/// The postings of one term, one per document, ordered by document id, with
/// an upper bound on their weights that ranking can use without a rescan.
#[derive(Debug)]
pub struct PostingList {
    items: Vec<Posting>,
    max_weight: u16,
}

impl View for PostingList {
    type V = PostingListV;

    open spec fn view(&self) -> PostingListV {
        PostingListV { items: views(self.raw()), max_weight: self.raw_max_weight() }
    }
}

/// What `append` makes of `a` and `b`: `a` where `b` is empty; `b` where `a` is; the
/// postings one after the other, with the larger bound, where every document of `b` comes
/// after those of `a`; otherwise the two merged, bounded by the largest weight of both.
pub open spec fn appended(a: PostingListV, b: PostingListV, f: PostingListV) -> bool {
    &&& b.items.len() == 0 ==> f == a
    &&& b.items.len() > 0 && a.items.len() == 0 ==> f == b
    &&& b.items.len() > 0 && a.items.len() > 0 && a.items.last().doc_id < b.items[0].doc_id ==> {
        &&& f.items == a.items + b.items
        &&& f.max_weight == (if b.max_weight > a.max_weight { b.max_weight } else { a.max_weight })
    }
    &&& b.items.len() > 0 && a.items.len() > 0 && a.items.last().doc_id >= b.items[0].doc_id ==> {
        &&& merged_from(a.items + b.items, f.items)
        &&& f.max_weight == max_weight_of(a.items + b.items)
    }
}

/// The largest weight of two lists one after the other is the larger of their largest
/// weights.
pub proof fn lemma_max_weight_concat(a: Seq<PostingV>, b: Seq<PostingV>)
    ensures
        max_weight_of(a + b) == (if max_weight_of(b) > max_weight_of(a) { max_weight_of(b) } else { max_weight_of(a) }),
    decreases b.len(),
{
    if b.len() == 0 {
        assert(a + b =~= a);
    } else {
        lemma_max_weight_concat(a, b.drop_last());
        assert((a + b).drop_last() =~= a + b.drop_last());
        assert((a + b).last() == b.last());
    }
}

/// Appending keeps the documents of both lists and no others, and, where each bound is the
/// largest weight of its list, the bound of the result is the larger of the two.
pub proof fn lemma_append_law(a: PostingListV, b: PostingListV, f: PostingListV, d: DocId)
    requires
        appended(a, b, f),
        a.max_weight == max_weight_of(a.items),
        b.max_weight == max_weight_of(b.items),
    ensures
        has_doc(f.items, d) <==> (has_doc(a.items, d) || has_doc(b.items, d)),
        f.max_weight == (if b.max_weight > a.max_weight { b.max_weight } else { a.max_weight }),
{
    let c = a.items + b.items;
    lemma_max_weight_concat(a.items, b.items);
    assert(has_doc(c, d) <==> (has_doc(a.items, d) || has_doc(b.items, d))) by {
        if has_doc(c, d) {
            let i = choose|i: int| 0 <= i < c.len() && c[i].doc_id == d;
            if i < a.items.len() {
                assert(a.items[i].doc_id == d);
            } else {
                assert(b.items[i - a.items.len()].doc_id == d);
            }
        }
        if has_doc(a.items, d) {
            let i = choose|i: int| 0 <= i < a.items.len() && a.items[i].doc_id == d;
            assert(c[i].doc_id == d);
        }
        if has_doc(b.items, d) {
            let i = choose|i: int| 0 <= i < b.items.len() && b.items[i].doc_id == d;
            assert(c[a.items.len() + i].doc_id == d);
        }
    }
    if b.items.len() == 0 {
        assert(!has_doc(b.items, d));
    } else if a.items.len() == 0 {
        assert(!has_doc(a.items, d));
    }
}

/// The postings of `s` whose mark in `m` is `true`, in order.
pub open spec fn mask_filter<A>(s: Seq<A>, m: Seq<bool>) -> Seq<A>
    decreases s.len(),
{
    if s.len() == 0 {
        Seq::empty()
    } else {
        let r = mask_filter(s.drop_last(), m.drop_last());
        if m.last() {
            r.push(s.last())
        } else {
            r
        }
    }
}

/// First index whose document id is at least `d` in a list sorted by document.
pub fn lower_bound(items: &Vec<Posting>, d: DocId) -> (k: usize)
    requires
        docs_nondecreasing(views(items@)),
    ensures
        k <= items.len(),
        forall|i: int| 0 <= i < k ==> items@[i].doc_id < d,
        forall|i: int| k <= i < items.len() ==> items@[i].doc_id >= d,
{
    let mut lo: usize = 0;
    let mut hi: usize = items.len();
    while lo < hi
        invariant
            0 <= lo <= hi <= items.len(),
            docs_nondecreasing(views(items@)),
            forall|i: int| 0 <= i < lo ==> items@[i].doc_id < d,
            forall|i: int| hi <= i < items.len() ==> items@[i].doc_id >= d,
        decreases hi - lo,
    {
        let mid = lo + (hi - lo) / 2;
        if items[mid].doc_id < d {
            proof {
                assert forall|i: int| 0 <= i <= mid implies items@[i].doc_id < d by {
                    assert(views(items@)[i].doc_id <= views(items@)[mid as int].doc_id);
                }
            }
            lo = mid + 1;
        } else {
            proof {
                assert forall|i: int| mid <= i < items.len() implies items@[i].doc_id >= d by {
                    assert(views(items@)[mid as int].doc_id <= views(items@)[i].doc_id);
                }
            }
            hi = mid;
        }
    }
    lo
}

/// Folds the `k`-th posting of `src` into `out`, the merge of the first `k`.
fn merge_in(out: &mut Vec<Posting>, p: Posting, Ghost(src): Ghost<Seq<PostingV>>, Ghost(k): Ghost<int>)
    requires
        0 <= k < src.len(),
        p@ == src[k],
        merged_from(src.take(k), views(old(out)@)),
        weights_bounded(views(old(out)@), max_weight_of(src.take(k))),
    ensures
        merged_from(src.take(k + 1), views(final(out)@)),
        weights_bounded(views(final(out)@), max_weight_of(src.take(k + 1))),
{
    let ghost s0 = src.take(k);
    let ghost s1 = src.take(k + 1);
    let ghost o0 = views(out@);
    let d = p.doc_id;
    proof {
        assert forall|x: DocId| count_doc(s1, x) == count_doc(s0, x) + if x == d { 1nat } else { 0nat }
            && positions_of(s1, x) == positions_of(s0, x).union(if x == d { p@.positions.to_set() } else { Set::empty() })
            && weight_of(s1, x) == (if x == d && p.weight > weight_of(s0, x) { p.weight } else { weight_of(s0, x) })
            by { lemma_take_step(src, k, x); }
        lemma_take_step(src, k, d);
        assert(s1[k] == src[k]);
        assert forall|j: int| 0 <= j < k implies s1[j] == s0[j] by {}
    }
    let lb = lower_bound(out, d);
    if lb < out.len() && out[lb].doc_id == d {
        let merged_positions = sorted_union(&out[lb].positions, &p.positions);
        let w = if out[lb].weight > p.weight { out[lb].weight } else { p.weight };
        let ghost old_entry = o0[lb as int];
        proof {
            lemma_count_zero(s0, d);
            assert(has_doc(o0, d));
            if count_doc(s0, d) == 1 {
                let j = choose|j: int| 0 <= j < s0.len() && s0[j] == o0[lb as int];
                lemma_count_single(s0, d, j);
            }
        }
        out.set(lb, Posting { doc_id: d, positions: merged_positions, weight: w });
        let ghost o1 = views(out@);
        proof {
            assert(o1 == o0.update(lb as int, o1[lb as int]));
            assert forall|x: DocId| has_doc(o1, x) <==> has_doc(s1, x) by {
                if has_doc(o1, x) {
                    let i = choose|i: int| 0 <= i < o1.len() && o1[i].doc_id == x;
                    assert(o0[i].doc_id == x);
                }
                if has_doc(o0, x) {
                    let i = choose|i: int| 0 <= i < o0.len() && o0[i].doc_id == x;
                    assert(o1[i].doc_id == x);
                }
                if has_doc(s1, x) && x != d {
                    let i = choose|i: int| 0 <= i < s1.len() && s1[i].doc_id == x;
                    assert(s0[i].doc_id == x);
                }
                if has_doc(s0, x) {
                    let i = choose|i: int| 0 <= i < s0.len() && s0[i].doc_id == x;
                    assert(s1[i].doc_id == x);
                }
            }
            assert forall|i: int|
                #![trigger o1[i]]
                0 <= i < o1.len() && count_doc(s1, o1[i].doc_id) == 1 implies exists|j: int|
                    0 <= j < s1.len() && s1[j] == o1[i] by {
                if i != lb {
                    let j = choose|j: int| 0 <= j < s0.len() && s0[j] == o0[i];
                    assert(s1[j] == o1[i]);
                }
            }
            assert forall|i: int|
                #![trigger o1[i]]
                0 <= i < o1.len() && count_doc(s1, o1[i].doc_id) > 1 implies {
                    &&& positions_strictly_increasing(o1[i].positions)
                    &&& o1[i].positions.to_set() == positions_of(s1, o1[i].doc_id)
                    &&& o1[i].weight == weight_of(s1, o1[i].doc_id)
                } by {
                if i != lb {
                    assert(o1[i] == o0[i]);
                    assert(o0[i].doc_id != d);
                }
            }
            assert forall|i: int| 0 <= i < o1.len() implies o1[i].weight <= max_weight_of(s1) by {
                assert(o0[i].weight <= max_weight_of(s0));
            }
        }
    } else {
        let ghost pv = p@;
        out.insert(lb, p);
        let ghost o1 = views(out@);
        proof {
            assert(o1 =~= o0.insert(lb as int, pv));
            assert(!has_doc(o0, d)) by {
                if has_doc(o0, d) {
                    let i = choose|i: int| 0 <= i < o0.len() && o0[i].doc_id == d;
                    if i < lb {} else if i > lb {
                        assert(o0[lb as int].doc_id <= o0[i].doc_id);
                    }
                }
            }
            lemma_count_zero(s0, d);
            assert forall|i: int, j: int| 0 <= i < j < o1.len() implies o1[i].doc_id < o1[j].doc_id by {
                if j < lb {
                } else if j == lb {
                } else if i < lb {
                    assert(o1[j] == o0[j - 1]);
                } else if i == lb {
                    assert(o1[j] == o0[j - 1]);
                } else {
                    assert(o1[i] == o0[i - 1]);
                    assert(o1[j] == o0[j - 1]);
                }
            }
            assert forall|x: DocId| has_doc(o1, x) <==> has_doc(s1, x) by {
                if has_doc(o1, x) {
                    let i = choose|i: int| 0 <= i < o1.len() && o1[i].doc_id == x;
                    if i < lb {
                        assert(o0[i].doc_id == x);
                    } else if i > lb {
                        assert(o0[i - 1].doc_id == x);
                    } else {
                        assert(s1[k].doc_id == x);
                    }
                }
                if has_doc(o0, x) {
                    let i = choose|i: int| 0 <= i < o0.len() && o0[i].doc_id == x;
                    if i < lb {
                        assert(o1[i].doc_id == x);
                    } else {
                        assert(o1[i + 1].doc_id == x);
                    }
                }
                if has_doc(s1, x) && x != d {
                    let i = choose|i: int| 0 <= i < s1.len() && s1[i].doc_id == x;
                    assert(s0[i].doc_id == x);
                }
                if x == d {
                    assert(o1[lb as int].doc_id == x);
                }
                if has_doc(s0, x) {
                    let i = choose|i: int| 0 <= i < s0.len() && s0[i].doc_id == x;
                    assert(s1[i].doc_id == x);
                }
            }
            assert forall|i: int|
                #![trigger o1[i]]
                0 <= i < o1.len() && count_doc(s1, o1[i].doc_id) == 1 implies exists|j: int|
                    0 <= j < s1.len() && s1[j] == o1[i] by {
                if i < lb {
                    assert(o1[i] == o0[i]);
                    let j = choose|j: int| 0 <= j < s0.len() && s0[j] == o0[i];
                    assert(s1[j] == o1[i]);
                } else if i > lb {
                    assert(o1[i] == o0[i - 1]);
                    let j = choose|j: int| 0 <= j < s0.len() && s0[j] == o0[i - 1];
                    assert(s1[j] == o1[i]);
                } else {
                    assert(s1[k] == o1[i]);
                }
            }
            assert forall|i: int|
                #![trigger o1[i]]
                0 <= i < o1.len() && count_doc(s1, o1[i].doc_id) > 1 implies {
                    &&& positions_strictly_increasing(o1[i].positions)
                    &&& o1[i].positions.to_set() == positions_of(s1, o1[i].doc_id)
                    &&& o1[i].weight == weight_of(s1, o1[i].doc_id)
                } by {
                if i < lb {
                    assert(o1[i] == o0[i]);
                    assert(o0[i].doc_id != d);
                } else if i > lb {
                    assert(o1[i] == o0[i - 1]);
                    assert(o0[i - 1].doc_id != d);
                }
            }
            assert forall|i: int| 0 <= i < o1.len() implies o1[i].weight <= max_weight_of(s1) by {
                if i < lb {
                    assert(o0[i].weight <= max_weight_of(s0));
                } else if i > lb {
                    assert(o0[i - 1].weight <= max_weight_of(s0));
                }
            }
        }
    }
}

/// The postings of `items` in reverse order.
fn reversed(items: Vec<Posting>) -> (r: Vec<Posting>)
    ensures
        r.len() == items.len(),
        forall|i: int| 0 <= i < r.len() ==> r@[i] == items@[items.len() - 1 - i],
{
    let ghost orig = items@;
    let mut items = items;
    let mut r: Vec<Posting> = Vec::with_capacity(items.len());
    while items.len() > 0
        invariant
            items.len() + r.len() == orig.len(),
            items@ == orig.take(items.len() as int),
            forall|i: int| 0 <= i < r.len() ==> r@[i] == orig[orig.len() - 1 - i],
        decreases items.len(),
    {
        let p = items.pop().unwrap();
        r.push(p);
    }
    r
}

impl PostingList {
    /// The postings themselves.
    pub closed spec fn raw(&self) -> Seq<Posting> {
        self.items@
    }

    /// The stored weight bound.
    pub closed spec fn raw_max_weight(&self) -> u16 {
        self.max_weight
    }

    /// Strictly increasing document ids, and `max_weight` bounds every weight.
    pub open spec fn wf(&self) -> bool {
        docs_strictly_increasing(self@.items) && weights_bounded(self@.items, self@.max_weight)
    }

    /// The empty list.
    pub fn new() -> (r: Self)
        ensures
            r.wf(),
            r@.items == Seq::<PostingV>::empty(),
            r@.max_weight == 0,
    {
        let r = PostingList { items: Vec::new(), max_weight: 0 };
        assert(r@.items =~= Seq::<PostingV>::empty());
        r
    }

    /// A copy of this list.
    pub fn duplicate(&self) -> (r: Self)
        requires
            self.wf(),
        ensures
            r.wf(),
            r@ == self@,
    {
        let mut items: Vec<Posting> = Vec::with_capacity(self.items.len());
        let mut i: usize = 0;
        while i < self.items.len()
            invariant
                i <= self.items@.len(),
                items@.len() == i,
                views(items@) == views(self.items@).subrange(0, i as int),
            decreases self.items@.len() - i,
        {
            let ghost before = items@;
            let q = self.items[i].duplicate();
            items.push(q);
            proof {
                assert(items@ == before.push(q));
                assert(views(items@).len() == i + 1);
                assert forall|k: int| 0 <= k < i + 1 implies views(items@)[k] == views(self.items@)[k] by {
                    if k < i {
                        assert(items@[k] == before[k]);
                        assert(views(before)[k] == views(self.items@)[k]);
                    }
                }
                assert(views(items@) =~= views(self.items@).subrange(0, i + 1));
            }
            i += 1;
        }
        proof {
            assert(views(items@) =~= views(self.items@));
        }
        PostingList { items, max_weight: self.max_weight }
    }

    /// The empty list, with room for `capacity` postings.
    pub fn with_capacity(capacity: usize) -> (r: Self)
        ensures
            r.wf(),
            r@.items == Seq::<PostingV>::empty(),
            r@.max_weight == 0,
    {
        let r = PostingList { items: Vec::with_capacity(capacity), max_weight: 0 };
        assert(r@.items =~= Seq::<PostingV>::empty());
        r
    }

    /// A list from postings already in strictly increasing document order,
    /// with a weight bound that was stored beside them.
    pub fn from_sorted_with_max_weight(items: Vec<Posting>, max_weight: u16) -> (r: Self)
        requires
            docs_strictly_increasing(views(items@)),
            weights_bounded(views(items@), max_weight),
        ensures
            r.wf(),
            r@.items == views(items@),
            r@.max_weight == max_weight,
    {
        PostingList { items, max_weight }
    }

    /// Merges postings given in any order into one list: sorted by document,
    /// one posting per document (see `merged_from`), and the largest weight
    /// as the bound.
    pub fn from_items(items: Vec<Posting>) -> (r: Self)
        ensures
            r.wf(),
            merged_from(views(items@), r@.items),
            r@.max_weight == max_weight_of(views(items@)),
    {
        let ghost src = views(items@);
        let n = items.len();
        let mut out: Vec<Posting> = Vec::with_capacity(n);
        let mut max_w: u16 = 0;
        let mut rest = reversed(items);
        let mut k: usize = 0;
        proof {
            assert(src.take(0) =~= Seq::<PostingV>::empty());
            assert(views(out@) =~= Seq::<PostingV>::empty());
        }
        while k < n
            invariant
                n == src.len(),
                k <= n,
                rest.len() == n - k,
                forall|i: int| 0 <= i < rest.len() ==> rest@[i]@ == src[n - 1 - i],
                merged_from(src.take(k as int), views(out@)),
                weights_bounded(views(out@), max_weight_of(src.take(k as int))),
                max_w == max_weight_of(src.take(k as int)),
            decreases n - k,
        {
            let p = rest.pop().unwrap();
            let pw = p.weight;
            merge_in(&mut out, p, Ghost(src), Ghost(k as int));
            proof {
                lemma_take_step(src, k as int, 0);
            }
            if pw > max_w {
                max_w = pw;
            }
            k += 1;
        }
        proof {
            assert(src.take(n as int) =~= src);
        }
        PostingList { items: out, max_weight: max_w }
    }

    /// Merges postings that are already ordered by document (documents may
    /// repeat); the same result as `from_items`.
    pub fn from_sorted(items: Vec<Posting>) -> (r: Self)
        requires
            docs_nondecreasing(views(items@)),
        ensures
            r.wf(),
            merged_from(views(items@), r@.items),
            r@.max_weight == max_weight_of(views(items@)),
    {
        Self::from_items(items)
    }

    /// Records one occurrence of a term at `position` in document `doc_id`
    /// with the given weight: the document's posting gets the position
    /// appended and keeps the larger weight, or a new posting is inserted in
    /// document order. The weight bound grows to cover `weight`.
    pub fn insert(&mut self, doc_id: DocId, position: Position, weight: u16)
        requires
            old(self).wf(),
        ensures
            final(self).wf(),
            final(self)@.max_weight == (if weight > old(self)@.max_weight { weight } else { old(self)@.max_weight }),
            forall|i: int| 0 <= i < old(self)@.items.len() && old(self)@.items[i].doc_id == doc_id
                ==> final(self)@.items == old(self)@.items.update(i, PostingV {
                    doc_id,
                    positions: old(self)@.items[i].positions.push(position),
                    weight: if weight > old(self)@.items[i].weight { weight } else { old(self)@.items[i].weight },
                }),
            !has_doc(old(self)@.items, doc_id) ==> exists|k: int| 0 <= k <= old(self)@.items.len()
                && final(self)@.items == old(self)@.items.insert(k, PostingV {
                    doc_id,
                    positions: seq![position],
                    weight,
                }),
    {
        let mut positions: Vec<Position> = Vec::new();
        positions.push(position);
        let ghost o = self@.items;
        proof {
            assert(positions@ =~= seq![position]);
            assert forall|i: int| 0 <= i < o.len() implies o[i].positions + seq![position] =~= o[i].positions.push(position) by {}
        }
        self.add_positions(doc_id, positions, weight);
    }

    /// Records several occurrences of a term in document `doc_id` at once;
    /// nothing happens when `positions` is empty. Otherwise the document's
    /// posting gets the positions appended and keeps the larger weight, or a
    /// new posting is inserted in document order, and the bound grows to
    /// cover `weight`.
    pub fn insert_posting(&mut self, doc_id: DocId, positions: Vec<Position>, weight: u16)
        requires
            old(self).wf(),
        ensures
            final(self).wf(),
            positions@.len() == 0 ==> final(self)@ == old(self)@,
            positions@.len() > 0 ==> final(self)@.max_weight == (if weight > old(self)@.max_weight { weight } else { old(self)@.max_weight }),
            positions@.len() > 0 ==> forall|i: int| 0 <= i < old(self)@.items.len() && old(self)@.items[i].doc_id == doc_id
                ==> final(self)@.items == old(self)@.items.update(i, PostingV {
                    doc_id,
                    positions: old(self)@.items[i].positions + positions@,
                    weight: if weight > old(self)@.items[i].weight { weight } else { old(self)@.items[i].weight },
                }),
            positions@.len() > 0 && !has_doc(old(self)@.items, doc_id) ==> exists|k: int| 0 <= k <= old(self)@.items.len()
                && final(self)@.items == old(self)@.items.insert(k, PostingV {
                    doc_id,
                    positions: positions@,
                    weight,
                }),
    {
        if positions.len() == 0 {
            return;
        }
        self.add_positions(doc_id, positions, weight);
    }

    fn add_positions(&mut self, doc_id: DocId, positions: Vec<Position>, weight: u16)
        requires
            old(self).wf(),
        ensures
            final(self).wf(),
            final(self)@.max_weight == (if weight > old(self)@.max_weight { weight } else { old(self)@.max_weight }),
            forall|i: int| 0 <= i < old(self)@.items.len() && old(self)@.items[i].doc_id == doc_id
                ==> final(self)@.items == old(self)@.items.update(i, PostingV {
                    doc_id,
                    positions: old(self)@.items[i].positions + positions@,
                    weight: if weight > old(self)@.items[i].weight { weight } else { old(self)@.items[i].weight },
                }),
            !has_doc(old(self)@.items, doc_id) ==> exists|k: int| 0 <= k <= old(self)@.items.len()
                && final(self)@.items == old(self)@.items.insert(k, PostingV {
                    doc_id,
                    positions: positions@,
                    weight,
                }),
    {
        let ghost o0 = self@.items;
        if weight > self.max_weight {
            self.max_weight = weight;
        }
        let lb = lower_bound(&self.items, doc_id);
        if lb < self.items.len() && self.items[lb].doc_id == doc_id {
            let mut merged: Vec<Position> = Vec::new();
            let mut i: usize = 0;
            let n = self.items[lb].positions.len();
            while i < n
                invariant
                    i <= n,
                    lb < self.items.len(),
                    n == self.items@[lb as int].positions.len(),
                    merged@ == self.items@[lb as int].positions@.subrange(0, i as int),
                decreases n - i,
            {
                merged.push(self.items[lb].positions[i]);
                i += 1;
            }
            let mut j: usize = 0;
            while j < positions.len()
                invariant
                    j <= positions.len(),
                    merged@ == o0[lb as int].positions + positions@.subrange(0, j as int),
                decreases positions.len() - j,
            {
                merged.push(positions[j]);
                j += 1;
            }
            proof {
                assert(positions@.subrange(0, positions.len() as int) =~= positions@);
            }
            let old_w = self.items[lb].weight;
            let w = if weight > old_w { weight } else { old_w };
            self.items.set(lb, Posting { doc_id, positions: merged, weight: w });
            proof {
                assert(self@.items =~= o0.update(lb as int, self@.items[lb as int]));
                assert forall|i: int| 0 <= i < o0.len() && o0[i].doc_id == doc_id implies i == lb by {
                    if i < lb {
                        assert(o0[i].doc_id < o0[lb as int].doc_id);
                    } else if i > lb {
                        assert(o0[lb as int].doc_id < o0[i].doc_id);
                    }
                }
            }
        } else {
            let ghost pv = PostingV { doc_id, positions: positions@, weight };
            self.items.insert(lb, Posting { doc_id, positions, weight });
            proof {
                let o1 = self@.items;
                assert(o1 =~= o0.insert(lb as int, pv));
                assert(!has_doc(o0, doc_id)) by {
                    if has_doc(o0, doc_id) {
                        let i = choose|i: int| 0 <= i < o0.len() && o0[i].doc_id == doc_id;
                        if i > lb {
                            assert(o0[lb as int].doc_id <= o0[i].doc_id);
                        }
                    }
                }
                assert forall|i: int, j: int| 0 <= i < j < o1.len() implies o1[i].doc_id < o1[j].doc_id by {
                    if j < lb {
                    } else if j == lb {
                    } else if i <= lb {
                        assert(o1[j] == o0[j - 1]);
                    } else {
                        assert(o1[i] == o0[i - 1]);
                        assert(o1[j] == o0[j - 1]);
                    }
                }
                assert forall|i: int| 0 <= i < o1.len() implies o1[i].weight <= self.max_weight by {
                    if i < lb {
                    } else if i > lb {
                        assert(o1[i] == o0[i - 1]);
                    }
                }
            }
        }
    }

    /// The postings, in document order.
    pub fn items(&self) -> (r: &[Posting])
        ensures
            r@ == self.raw(),
            views(r@) == self@.items,
    {
        self.items.as_slice()
    }

    /// The postings, in document order, taken out of the list.
    pub fn into_items(self) -> (r: Vec<Posting>)
        ensures
            r@ == self.raw(),
            views(r@) == self@.items,
    {
        self.items
    }

    /// The number of postings (documents).
    pub fn len(&self) -> (r: usize)
        ensures
            r == self@.items.len(),
    {
        self.items.len()
    }

    /// Whether the list holds no posting.
    pub fn is_empty(&self) -> (r: bool)
        ensures
            r == (self@.items.len() == 0),
    {
        self.items.len() == 0
    }

    /// The stored upper bound on the weights.
    pub fn max_weight(&self) -> (r: u16)
        ensures
            r == self@.max_weight,
    {
        self.max_weight
    }

    /// Adds the postings of `other`. An empty `other` changes nothing; into
    /// an empty list `other` is taken as it is; when every document of
    /// `other` comes after the last one here the postings are appended and
    /// the bounds combined; otherwise both are merged as `from_items` does.
    pub fn append(&mut self, other: PostingList)
        requires
            old(self).wf(),
            other.wf(),
        ensures
            final(self).wf(),
            appended(old(self)@, other@, final(self)@),
            other@.items.len() == 0 ==> final(self)@ == old(self)@,
            other@.items.len() > 0 && old(self)@.items.len() == 0 ==> final(self)@ == other@,
            other@.items.len() > 0 && old(self)@.items.len() > 0
                && old(self)@.items.last().doc_id < other@.items[0].doc_id ==> {
                &&& final(self)@.items == old(self)@.items + other@.items
                &&& final(self)@.max_weight == (if other@.max_weight > old(self)@.max_weight { other@.max_weight } else { old(self)@.max_weight })
            },
            other@.items.len() > 0 && old(self)@.items.len() > 0
                && old(self)@.items.last().doc_id >= other@.items[0].doc_id ==> {
                &&& merged_from(old(self)@.items + other@.items, final(self)@.items)
                &&& final(self)@.max_weight == max_weight_of(old(self)@.items + other@.items)
            },
    {
        let mut other = other;
        if other.items.len() == 0 {
            return;
        }
        if self.items.len() == 0 {
            *self = other;
            return;
        }
        let ghost a = self@.items;
        let ghost b = other@.items;
        let last = self.items[self.items.len() - 1].doc_id;
        let first = other.items[0].doc_id;
        if last < first {
            if other.max_weight > self.max_weight {
                self.max_weight = other.max_weight;
            }
            self.items.append(&mut other.items);
            proof {
                assert(self@.items =~= a + b);
                assert forall|i: int, j: int| 0 <= i < j < (a + b).len() implies (a + b)[i].doc_id < (a + b)[j].doc_id by {
                    if i < a.len() && j >= a.len() {
                        assert(a[i].doc_id <= a.last().doc_id);
                        assert(b[0].doc_id <= b[j - a.len()].doc_id);
                    }
                }
            }
        } else {
            let mut all: Vec<Posting> = Vec::new();
            all.append(&mut self.items);
            all.append(&mut other.items);
            proof {
                assert(views(all@) =~= a + b);
            }
            *self = PostingList::from_items(all);
        }
    }

    /// Keeps the postings for which `keep` answers `true`, in order; the
    /// weight bound becomes the largest weight of the kept postings (0 where none is kept).
    pub fn retain<F: Fn(&Posting) -> bool>(&mut self, keep: F)
        requires
            old(self).wf(),
            forall|i: int| 0 <= i < old(self).raw().len() ==> call_requires(keep, (&old(self).raw()[i],)),
        ensures
            final(self).wf(),
            final(self)@.max_weight == max_weight_of(final(self)@.items),
            exists|kept: Seq<bool>| {
                &&& kept.len() == old(self).raw().len()
                &&& forall|i: int| 0 <= i < kept.len() ==> call_ensures(keep, (&old(self).raw()[i],), #[trigger] kept[i])
                &&& final(self).raw() == mask_filter(old(self).raw(), kept)
            },
    {
        let ghost src = self.items@;
        let n = self.items.len();
        let mut rest: Vec<Posting> = Vec::new();
        rest.append(&mut self.items);
        let mut rest = reversed(rest);
        let mut out: Vec<Posting> = Vec::new();
        let mut max_w: u16 = 0;
        let ghost mut kept: Seq<bool> = Seq::empty();
        let mut k: usize = 0;
        proof {
            assert(src.take(0) =~= Seq::<Posting>::empty());
        }
        while k < n
            invariant
                n == src.len(),
                k <= n,
                rest.len() == n - k,
                forall|i: int| 0 <= i < rest.len() ==> rest@[i] == src[n - 1 - i],
                forall|i: int| 0 <= i < n ==> call_requires(keep, (&src[i],)),
                docs_strictly_increasing(views(src)),
                weights_bounded(views(src), self.max_weight),
                kept.len() == k,
                forall|i: int| 0 <= i < k ==> call_ensures(keep, (&src[i],), #[trigger] kept[i]),
                out@ == mask_filter(src.take(k as int), kept),
                forall|i: int| 0 <= i < out.len() ==> exists|j: int| 0 <= j < k && #[trigger] out@[i] == src[j],
                docs_strictly_increasing(views(out@)),
                max_w == max_weight_of(views(out@)),
                out.len() > 0 ==> forall|j: int| k <= j < n ==> out@.last().doc_id < src[j].doc_id,
            decreases n - k,
        {
            let p = rest.pop().unwrap();
            let b = keep(&p);
            proof {
                assert(src.take(k + 1).drop_last() =~= src.take(k as int));
                assert(kept.push(b).drop_last() =~= kept);
                assert(views(src)[k as int].doc_id == p.doc_id);
            }
            if b {
                let ghost o0 = out@;
                let w = p.weight;
                out.push(p);
                if w > max_w {
                    max_w = w;
                }
                proof {
                    assert(views(out@).drop_last() =~= views(o0));
                    assert forall|i: int, j: int| 0 <= i < j < views(out@).len() implies views(out@)[i].doc_id < views(out@)[j].doc_id by {
                        assert(out@[i] == o0.push(p)[i]);
                        if j == out.len() - 1 {
                            assert(o0.last().doc_id < src[k as int].doc_id);
                            if i < o0.len() - 1 {
                                assert(views(o0)[i].doc_id < views(o0)[o0.len() - 1].doc_id);
                            }
                        } else {
                            assert(out@[j] == o0[j]);
                            assert(views(o0)[i].doc_id < views(o0)[j].doc_id);
                        }
                    }
                    assert forall|j: int| k + 1 <= j < n implies out@.last().doc_id < src[j].doc_id by {
                        assert(views(src)[k as int].doc_id < views(src)[j].doc_id);
                    }
                }
            } else {
                proof {
                    if out.len() > 0 {
                        assert forall|j: int| k + 1 <= j < n implies out@.last().doc_id < src[j].doc_id by {}
                    }
                }
            }
            proof {
                kept = kept.push(b);
            }
            k += 1;
        }
        proof {
            assert(src.take(n as int) =~= src);
            assert forall|i: int| 0 <= i < out.len() implies out@[i].weight <= self.max_weight by {
                let j = choose|j: int| 0 <= j < n && out@[i] == src[j];
                assert(views(src)[j].weight <= self.max_weight);
            }
            crate::posting::spec::lemma_max_weight_bound(views(out@));
        }
        self.items = out;
        self.max_weight = max_w;
    }
}

} // verus!
