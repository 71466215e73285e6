use std::collections::BTreeSet;

use vstd::prelude::*;

use crate::posting::item::{Posting, PostingV};
use crate::posting::list::PostingList;
use crate::posting::spec::{docs_strictly_increasing, max_weight_of, views, weights_bounded};
use crate::types::DocId;

verus! {

broadcast use vstd::laws_cmp::group_laws_cmp;

/// The postings of `s` whose document is not in `deleted`, in order.
pub open spec fn without_deleted(s: Seq<PostingV>, deleted: Set<DocId>) -> Seq<PostingV> {
    s.filter(|p: PostingV| !deleted.contains(p.doc_id))
}

/// The tombstones of deleted documents: a deleted document shows up in no
/// query result and is dropped when segments are merged.
#[derive(Debug)]
pub struct DeleteSet {
    deleted: BTreeSet<DocId>,
}

impl View for DeleteSet {
    type V = Set<DocId>;

    open spec fn view(&self) -> Set<DocId> {
        self.raw()
    }
}

impl DeleteSet {
    /// The set of deleted documents.
    pub closed spec fn raw(&self) -> Set<DocId> {
        self.deleted@
    }

    /// No document deleted.
    pub fn new() -> (r: Self)
        ensures
            r@ == Set::<DocId>::empty(),
    {
        DeleteSet { deleted: BTreeSet::new() }
    }

    /// Marks `doc_id` as deleted.
    pub fn delete(&mut self, doc_id: DocId)
        ensures
            final(self)@ == old(self)@.insert(doc_id),
    {
        self.deleted.insert(doc_id);
    }

    /// Whether `doc_id` is deleted.
    pub fn is_deleted(&self, doc_id: DocId) -> (r: bool)
        ensures
            r == self@.contains(doc_id),
    {
        self.deleted.contains(&doc_id)
    }

    /// Whether `doc_id` is deleted (the same question as `is_deleted`).
    pub fn contains(&self, doc_id: DocId) -> (r: bool)
        ensures
            r == self@.contains(doc_id),
    {
        self.deleted.contains(&doc_id)
    }

    /// A copy of this set.
    pub fn duplicate(&self) -> (r: Self)
        ensures
            r@ == self@,
    {
        DeleteSet { deleted: self.deleted.clone() }
    }

    /// Whether no document is deleted.
    pub fn is_empty(&self) -> (r: bool)
        ensures
            r == self@.is_empty(),
    {
        self.deleted.is_empty()
    }

    /// The postings of `list` whose document is not deleted, in order, with
    /// the largest remaining weight as the bound.
    pub fn filter(&self, list: &PostingList) -> (r: PostingList)
        requires
            list.wf(),
        ensures
            r.wf(),
            r@.items == without_deleted(list@.items, self@),
            r@.max_weight == max_weight_of(without_deleted(list@.items, self@)),
    {
        let items = list.items();
        let ghost src = views(items@);
        let ghost pred = |p: PostingV| !self@.contains(p.doc_id);
        let mut out: Vec<Posting> = Vec::new();
        let mut max_w: u16 = 0;
        let mut i: usize = 0;
        while i < items.len()
            invariant
                i <= items.len(),
                src == views(items@),
                src == list@.items,
                docs_strictly_increasing(src),
                pred == (|p: PostingV| !self@.contains(p.doc_id)),
                views(out@) == src.take(i as int).filter(pred),
                max_w == max_weight_of(views(out@)),
                forall|k: int| 0 <= k < out.len() ==> exists|j: int| 0 <= j < i && #[trigger] views(out@)[k] == src[j],
            decreases items.len() - i,
        {
            proof {
                reveal_with_fuel(Seq::<_>::filter, 1);
                assert(src.take(i + 1).drop_last() =~= src.take(i as int));
                assert(src.take(i + 1).last() == src[i as int]);
            }
            if !self.deleted.contains(&items[i].doc_id) {
                let p = items[i].duplicate();
                let ghost o0 = views(out@);
                let w = p.weight;
                out.push(p);
                proof {
                    assert(views(out@) =~= o0.push(src[i as int]));
                    assert(views(out@).drop_last() =~= o0);
                }
                if w > max_w {
                    max_w = w;
                }
            }
            i += 1;
        }
        proof {
            assert(src.take(items.len() as int) =~= src);
            let r = views(out@);
            crate::posting::spec::lemma_max_weight_bound(r);
            assert forall|a: int, b: int| 0 <= a < b < r.len() implies r[a].doc_id < r[b].doc_id by {
                crate::posting::deleted::lemma_filter_keeps_order(src, pred, a, b);
            }
        }
        PostingList::from_sorted_with_max_weight(out, max_w)
    }
}

/// Filtering keeps the relative order of what it keeps.
pub proof fn lemma_filter_keeps_order(s: Seq<PostingV>, pred: spec_fn(PostingV) -> bool, a: int, b: int)
    requires
        docs_strictly_increasing(s),
        0 <= a < b < s.filter(pred).len(),
    ensures
        s.filter(pred)[a].doc_id < s.filter(pred)[b].doc_id,
    decreases s.len(),
{
    let t = s.drop_last();
    t.lemma_filter_len(pred);
    s.lemma_filter_len(pred);
    reveal_with_fuel(Seq::<_>::filter, 1);
    assert(s.filter(pred) == if pred(s.last()) { t.filter(pred).push(s.last()) } else { t.filter(pred) });
    assert(docs_strictly_increasing(t));
    if pred(s.last()) {
        if b == s.filter(pred).len() - 1 {
            lemma_filter_in(t, pred, a);
            let j = choose|j: int| 0 <= j < t.len() && t.filter(pred)[a] == t[j];
            assert(s[j].doc_id < s[s.len() - 1].doc_id);
        } else {
            lemma_filter_keeps_order(t, pred, a, b);
        }
    } else {
        lemma_filter_keeps_order(t, pred, a, b);
    }
}

/// Whatever filtering keeps comes from the sequence.
pub proof fn lemma_filter_in(s: Seq<PostingV>, pred: spec_fn(PostingV) -> bool, a: int)
    requires
        0 <= a < s.filter(pred).len(),
    ensures
        exists|j: int| 0 <= j < s.len() && s.filter(pred)[a] == s[j],
    decreases s.len(),
{
    let t = s.drop_last();
    t.lemma_filter_len(pred);
    s.lemma_filter_len(pred);
    reveal_with_fuel(Seq::<_>::filter, 1);
    assert(s.filter(pred) == if pred(s.last()) { t.filter(pred).push(s.last()) } else { t.filter(pred) });
    if pred(s.last()) && a == s.filter(pred).len() - 1 {
        assert(s.filter(pred)[a] == s[s.len() - 1]);
    } else {
        lemma_filter_in(t, pred, a);
        let j = choose|j: int| 0 <= j < t.len() && t.filter(pred)[a] == t[j];
        assert(s[j] == t[j]);
    }
}

} // verus!
