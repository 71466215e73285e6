//! A stable view of an index for reading: the memory table, the segments on disk and the
//! deleted documents. A read gathers the postings of every part, merges them by document
//! and drops the deleted ones.

use vstd::prelude::*;

use crate::disk::segment::DiskSegment;
use crate::mem::{empty_postings, MemIndex};
use crate::posting::deleted::{lemma_filter_in, without_deleted, DeleteSet};
use crate::posting::item::PostingV;
use crate::posting::list::{PostingList, PostingListV};
use crate::posting::ops::{all_items, union_many};
use crate::posting::spec::{has_doc, max_weight_of, merged_from};
use crate::types::XPathId;

verus! {

/// A snapshot of an index: its memory table, its segments and its deleted documents.
pub struct IndexSnapshot {
    mem: MemIndex,
    segments: Vec<DiskSegment>,
    deleted: DeleteSet,
}

/// The postings the memory table `mem` holds for `term` in `xpath`, none where it holds none.
pub open spec fn mem_term(mem: MemIndex, term: Seq<char>, xpath: XPathId) -> PostingListV {
    if mem.postings().contains_key((term, xpath)) {
        mem.postings()[(term, xpath)]
    } else {
        empty_postings()
    }
}

/// Whether `lists` are the postings of `term` in `xpath` gathered from every part: first
/// those of the memory table, then one list from each segment in order, as the segment's
/// `lookup` gives it.
pub open spec fn term_gathered(
    mem: MemIndex,
    segments: Seq<DiskSegment>,
    term: Seq<char>,
    xpath: XPathId,
    lists: Seq<PostingList>,
) -> bool {
    &&& lists.len() == segments.len() + 1
    &&& lists[0]@ == mem_term(mem, term, xpath)
    &&& forall|k: int| 0 <= k < segments.len() ==> #[trigger] segments[k].term_found(term, xpath, lists[k + 1]@)
    &&& forall|k: int| 0 <= k < lists.len() ==> (#[trigger] lists[k]).wf()
}

/// The keys of the terms in `xpath` that start with `prefix`.
pub open spec fn prefix_keep(prefix: Seq<char>, xpath: XPathId) -> spec_fn((Seq<char>, XPathId)) -> bool {
    |k: (Seq<char>, XPathId)| k.1 == xpath && prefix.is_prefix_of(k.0)
}

/// Whether `lists` are the postings of the terms in `xpath` starting with `prefix` gathered
/// from every part: first those of the memory table, merged, then one list from each segment
/// in order, as the segment's `lookup_prefix` gives it.
pub open spec fn prefix_gathered(
    mem: MemIndex,
    segments: Seq<DiskSegment>,
    prefix: Seq<char>,
    xpath: XPathId,
    lists: Seq<PostingList>,
) -> bool {
    &&& lists.len() == segments.len() + 1
    &&& merged_from(mem.items_where(prefix_keep(prefix, xpath)), lists[0]@.items)
    &&& forall|k: int| 0 <= k < segments.len() ==> #[trigger] segments[k].prefix_found(prefix, xpath, lists[k + 1]@)
    &&& forall|k: int| 0 <= k < lists.len() ==> (#[trigger] lists[k]).wf()
}

/// Whether `r` is a read over `lists`: their postings merged by document as `from_items` does,
/// the deleted documents dropped, bounded by the largest weight left.
pub open spec fn read_from(lists: Seq<PostingList>, deleted: Set<u64>, r: PostingListV) -> bool {
    exists|u: Seq<PostingV>|
        #![trigger merged_from(all_items(lists), u)]
        merged_from(all_items(lists), u) && r.items == without_deleted(u, deleted) && r.max_weight == max_weight_of(
            r.items,
        )
}

impl IndexSnapshot {
    /// The memory table.
    pub closed spec fn mem_table(&self) -> MemIndex {
        self.mem
    }

    /// The segments, oldest first.
    pub closed spec fn segment_seq(&self) -> Seq<DiskSegment> {
        self.segments@
    }

    /// The deleted documents.
    pub closed spec fn deleted_set(&self) -> Set<u64> {
        self.deleted@
    }

    /// The memory table is well formed and every segment's postings can be read.
    pub open spec fn wf(&self) -> bool {
        &&& self.mem_table().wf()
        &&& forall|k: int| 0 <= k < self.segment_seq().len() ==> (#[trigger] self.segment_seq()[k]).decodable()
    }

    /// The snapshot of `mem`, `segments` and `deleted`.
    pub fn new(mem: MemIndex, segments: Vec<DiskSegment>, deleted: DeleteSet) -> (r: Self)
        requires
            mem.wf(),
            forall|k: int| 0 <= k < segments@.len() ==> (#[trigger] segments@[k]).decodable(),
        ensures
            r.wf(),
            r.mem_table() == mem,
            r.segment_seq() == segments@,
            r.deleted_set() == deleted@,
    {
        IndexSnapshot { mem, segments, deleted }
    }

    /// The postings of `term` in `xpath` over every part, merged by document, without the
    /// deleted documents.
    pub fn lookup(&self, term: &str, xpath: XPathId) -> (r: PostingList)
        requires
            self.wf(),
        ensures
            r.wf(),
            exists|lists: Seq<PostingList>|
                #[trigger] term_gathered(self.mem_table(), self.segment_seq(), term@, xpath, lists) && read_from(
                    lists,
                    self.deleted_set(),
                    r@,
                ),
    {
        let mut lists: Vec<PostingList> = Vec::new();
        lists.push(self.mem.lookup_or_empty(term, xpath));
        let mut i: usize = 0;
        while i < self.segments.len()
            invariant
                self.wf(),
                i <= self.segments@.len(),
                self.segment_seq() == self.segments@,
                lists@.len() == i + 1,
                lists@[0]@ == mem_term(self.mem_table(), term@, xpath),
                forall|k: int| 0 <= k < i ==> #[trigger] self.segments@[k].term_found(term@, xpath, lists@[k + 1]@),
                forall|k: int| 0 <= k < lists@.len() ==> (#[trigger] lists@[k]).wf(),
            decreases self.segments@.len() - i,
        {
            assert(self.segment_seq()[i as int].decodable());
            let l = self.segments[i].lookup(term, xpath);
            let ghost before = lists@;
            lists.push(l);
            assert forall|k: int| 0 <= k < i + 1 implies #[trigger] self.segments@[k].term_found(term@, xpath, lists@[k + 1]@) by {
                if k < i {
                    assert(lists@[k + 1] == before[k + 1]);
                }
            }
            i += 1;
        }
        let u = union_many(lists.as_slice());
        let r = self.deleted.filter(&u);
        assert(term_gathered(self.mem_table(), self.segment_seq(), term@, xpath, lists@));
        assert(merged_from(all_items(lists@), u@.items));
        r
    }

    /// The postings of every term in `xpath` that starts with `prefix`, over every part,
    /// merged by document, without the deleted documents.
    pub fn lookup_prefix(&self, prefix: &str, xpath: XPathId) -> (r: PostingList)
        requires
            self.wf(),
        ensures
            r.wf(),
            exists|lists: Seq<PostingList>|
                #[trigger] prefix_gathered(self.mem_table(), self.segment_seq(), prefix@, xpath, lists) && read_from(
                    lists,
                    self.deleted_set(),
                    r@,
                ),
    {
        let mut lists: Vec<PostingList> = Vec::new();
        lists.push(self.mem.lookup_prefix(prefix, xpath));
        let mut i: usize = 0;
        while i < self.segments.len()
            invariant
                self.wf(),
                i <= self.segments@.len(),
                self.segment_seq() == self.segments@,
                lists@.len() == i + 1,
                merged_from(
                    self.mem_table().items_where(|k: (Seq<char>, XPathId)| k.1 == xpath && prefix@.is_prefix_of(k.0)),
                    lists@[0]@.items,
                ),
                forall|k: int| 0 <= k < i ==> #[trigger] self.segments@[k].prefix_found(prefix@, xpath, lists@[k + 1]@),
                forall|k: int| 0 <= k < lists@.len() ==> (#[trigger] lists@[k]).wf(),
            decreases self.segments@.len() - i,
        {
            assert(self.segment_seq()[i as int].decodable());
            let l = self.segments[i].lookup_prefix(prefix, xpath);
            let ghost before = lists@;
            lists.push(l);
            assert forall|k: int| 0 <= k < i + 1 implies #[trigger] self.segments@[k].prefix_found(prefix@, xpath, lists@[k + 1]@) by {
                if k < i {
                    assert(lists@[k + 1] == before[k + 1]);
                }
            }
            i += 1;
        }
        let u = union_many(lists.as_slice());
        let r = self.deleted.filter(&u);
        proof {
            let f1 = |k: (Seq<char>, XPathId)| k.1 == xpath && prefix@.is_prefix_of(k.0);
            assert(f1 =~= prefix_keep(prefix@, xpath));
        }
        assert(prefix_gathered(self.mem_table(), self.segment_seq(), prefix@, xpath, lists@));
        assert(merged_from(all_items(lists@), u@.items));
        r
    }
}

/// A read finds a document exactly when some part holds it and it is not deleted: a deleted
/// document never shows up.
pub proof fn lemma_read_members(lists: Seq<PostingList>, deleted: Set<u64>, r: PostingListV, d: u64)
    requires
        read_from(lists, deleted, r),
    ensures
        has_doc(r.items, d) <==> (has_doc(all_items(lists), d) && !deleted.contains(d)),
{
    let u = choose|u: Seq<PostingV>| #![trigger merged_from(all_items(lists), u)]
        merged_from(all_items(lists), u) && r.items == without_deleted(u, deleted) && r.max_weight == max_weight_of(r.items);
    let pred = |p: PostingV| !deleted.contains(p.doc_id);
    assert(r.items == u.filter(pred));
    if has_doc(r.items, d) {
        let a = choose|a: int| 0 <= a < r.items.len() && r.items[a].doc_id == d;
        u.lemma_filter_pred(pred, a);
        lemma_filter_in(u, pred, a);
        let j = choose|j: int| 0 <= j < u.len() && u.filter(pred)[a] == u[j];
        assert(u[j].doc_id == d);
        assert(has_doc(u, d));
    }
    if has_doc(all_items(lists), d) && !deleted.contains(d) {
        assert(has_doc(u, d));
        let j = choose|j: int| 0 <= j < u.len() && u[j].doc_id == d;
        u.lemma_filter_contains(pred, j);
        let a = choose|a: int| 0 <= a < u.filter(pred).len() && u.filter(pred)[a] == u[j];
        assert(r.items[a].doc_id == d);
    }
}

} // verus!
