use vstd::prelude::*;

use crate::posting::item::{Posting, PostingV};
use crate::posting::list::PostingList;
use crate::posting::spec::{docs_strictly_increasing, views};
use crate::types::DocId;

verus! {

/// Mathematical value of a cursor: the postings it walks and where it is.
pub ghost struct PostingCursorV {
    pub postings: Seq<PostingV>,
    pub index: int,
}

/// A cursor that only moves forward over the postings of one list, so that
/// several sorted lists can be walked side by side without copying them.
pub struct PostingCursor<'a> {
    postings: &'a [Posting],
    index: usize,
}

impl<'a> View for PostingCursor<'a> {
    type V = PostingCursorV;

    open spec fn view(&self) -> PostingCursorV {
        PostingCursorV { postings: views(self.raw()), index: self.raw_index() as int }
    }
}

impl<'a> PostingCursor<'a> {
    /// The postings walked over.
    pub closed spec fn raw(&self) -> Seq<Posting> {
        self.postings@
    }

    /// The current index.
    pub closed spec fn raw_index(&self) -> usize {
        self.index
    }

    /// Sorted postings and an index inside them or just past the end.
    pub open spec fn wf(&self) -> bool {
        docs_strictly_increasing(self@.postings) && 0 <= self@.index <= self@.postings.len()
    }

    /// A cursor at the first posting of `list`.
    pub fn new(list: &'a PostingList) -> (r: Self)
        requires
            list.wf(),
        ensures
            r.wf(),
            r@.postings == list@.items,
            r@.index == 0,
            r.raw() == list.raw(),
    {
        let postings = list.items();
        PostingCursor { postings, index: 0 }
    }

    /// Whether the cursor has moved past the last posting.
    pub fn is_exhausted(&self) -> (r: bool)
        requires
            self.wf(),
        ensures
            r == (self@.index >= self@.postings.len()),
    {
        self.index >= self.postings.len()
    }

    /// The document of the current posting, if any.
    pub fn doc_id(&self) -> (r: Option<DocId>)
        requires
            self.wf(),
        ensures
            self@.index < self@.postings.len() ==> r == Some(self@.postings[self@.index].doc_id),
            self@.index >= self@.postings.len() ==> r is None,
    {
        if self.index < self.postings.len() {
            Some(self.postings[self.index].doc_id)
        } else {
            None
        }
    }

    /// The current posting, if any.
    pub fn current(&self) -> (r: Option<&'a Posting>)
        requires
            self.wf(),
        ensures
            self@.index < self@.postings.len() ==> r is Some && r->0 == self.raw()[self@.index],
            self@.index >= self@.postings.len() ==> r is None,
    {
        if self.index < self.postings.len() {
            Some(&self.postings[self.index])
        } else {
            None
        }
    }

    /// Moves one posting forward, unless the cursor is exhausted.
    pub fn next(&mut self)
        requires
            old(self).wf(),
        ensures
            final(self).wf(),
            final(self).raw() == old(self).raw(),
            final(self)@.index == if old(self)@.index < old(self)@.postings.len() {
                old(self)@.index + 1
            } else {
                old(self)@.index
            },
    {
        if self.index < self.postings.len() {
            self.index += 1;
        }
    }

    /// Moves to the first posting, from the current one on, whose document is
    /// at least `target` (or past the end when there is none). It gallops
    /// forward in doubling steps, then searches the last step by halving.
    pub fn advance_to(&mut self, target: DocId)
        requires
            old(self).wf(),
        ensures
            final(self).wf(),
            final(self).raw() == old(self).raw(),
            old(self)@.index <= final(self)@.index,
            forall|j: int| old(self)@.index <= j < final(self)@.index ==> old(self)@.postings[j].doc_id < target,
            final(self)@.index < old(self)@.postings.len() ==> old(self)@.postings[final(self)@.index].doc_id >= target,
    {
        let ghost s = self@.postings;
        let len = self.postings.len();
        if self.index >= len {
            return;
        }
        if self.postings[self.index].doc_id >= target {
            return;
        }
        let start = self.index;
        let mut bound: usize = 1;
        while bound < len - start && self.postings[start + bound].doc_id < target
            invariant
                start < len,
                len == self.postings@.len(),
                s == views(self.postings@),
                docs_strictly_increasing(s),
                1 <= bound,
                bound <= 2 * (len - start),
                bound / 2 < len - start,
                s[start + bound / 2].doc_id < target,
            decreases 2 * (len - start) - bound,
        {
            let ghost b0 = bound;
            bound = if bound > usize::MAX / 2 { usize::MAX } else { bound * 2 };
            proof {
                if b0 > usize::MAX / 2 {
                    assert(bound / 2 <= b0);
                    if bound / 2 < b0 {
                        assert(s[start + bound / 2].doc_id < s[start + b0].doc_id);
                    }
                }
            }
        }
        let mut left: usize = start + bound / 2;
        let mut right: usize = if bound < len - start { start + bound + 1 } else { len };
        proof {
            assert forall|j: int| start <= j <= left implies s[j].doc_id < target by {
                if j < left {
                    assert(s[j].doc_id < s[left as int].doc_id);
                }
            }
            if right < len {
                assert(s[right - 1].doc_id >= target);
            }
        }
        left = left + 1;
        while left < right
            invariant
                start < left <= right <= len,
                len == self.postings@.len(),
                s == views(self.postings@),
                docs_strictly_increasing(s),
                forall|j: int| start <= j < left ==> s[j].doc_id < target,
                right < len ==> s[right as int].doc_id >= target,
                forall|j: int| right <= j < len ==> s[j].doc_id >= target,
            decreases right - left,
        {
            let mid = left + (right - left) / 2;
            if self.postings[mid].doc_id < target {
                left = mid + 1;
            } else {
                proof {
                    assert forall|j: int| mid <= j < len implies s[j].doc_id >= target by {
                        if j > mid {
                            assert(s[mid as int].doc_id < s[j].doc_id);
                        }
                    }
                }
                right = mid;
            }
        }
        self.index = left;
    }
}

} // verus!
