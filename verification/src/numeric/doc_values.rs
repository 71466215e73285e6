use vstd::prelude::*;

use crate::numeric::values::NumericKind;
use crate::types::DocId;

verus! {

/// How many entries one block of the index over the entries covers.
pub const BLOCK_SIZE: usize = 256;

/// Whether the entries are ordered by document.
pub open spec fn sorted_by_doc(entries: Seq<(DocId, u64)>) -> bool {
    forall|i: int, j: int| 0 <= i <= j < entries.len() ==> entries[i].0 <= entries[j].0
}

/// Whether `blocks` holds the first document of each block of `entries`.
pub open spec fn block_index(entries: Seq<(DocId, u64)>, blocks: Seq<DocId>) -> bool {
    &&& blocks.len() == (entries.len() + 255) / 256
    &&& forall|b: int| 0 <= b < blocks.len() ==> #[trigger] blocks[b] == entries[256 * b].0
}

/// The first document of each block of `entries`.
fn block_starts(entries: &Vec<(DocId, u64)>) -> (r: Vec<DocId>)
    ensures
        block_index(entries@, r@),
{
    let n = entries.len();
    let mut blocks: Vec<DocId> = Vec::new();
    let mut i: usize = 0;
    while i < n
        invariant
            n == entries@.len(),
            i <= n,
            i == 256 * blocks@.len() || (i == n && n <= 256 * blocks@.len() && 256 * blocks@.len() < n + 256),
            i < n ==> i == 256 * blocks@.len(),
            forall|b: int| 0 <= b < blocks@.len() ==> #[trigger] blocks@[b] == entries@[256 * b].0,
        decreases n - i,
    {
        blocks.push(entries[i].0);
        if n - i > BLOCK_SIZE {
            i = i + BLOCK_SIZE;
        } else {
            i = n;
        }
    }
    blocks
}

/// The value of each document of one numeric field, ordered by document, with the first
/// document of every block of entries to find the block of a document fast.
#[derive(Debug, Clone)]
pub struct DocValues {
    kind: NumericKind,
    entries: Vec<(DocId, u64)>,
    block_first_doc: Vec<DocId>,
}

impl DocValues {
    /// The entries, ordered by document.
    pub closed spec fn entry_seq(&self) -> Seq<(DocId, u64)> {
        self.entries@
    }

    /// Whether the values are integers or floats.
    pub closed spec fn kind_spec(&self) -> NumericKind {
        self.kind
    }

    /// The entries are ordered by document and the block index matches them.
    pub closed spec fn wf(&self) -> bool {
        sorted_by_doc(self.entries@) && block_index(self.entries@, self.block_first_doc@)
    }

    /// Integer values for no document.
    pub fn empty() -> (r: Self)
        ensures
            r.wf(),
            r.kind_spec() == NumericKind::Int,
            r.entry_seq().len() == 0,
    {
        DocValues { kind: NumericKind::Int, entries: Vec::new(), block_first_doc: Vec::new() }
    }

    /// The values of `entries`, which must be ordered by document.
    pub fn from_packed(kind: NumericKind, entries: Vec<(DocId, u64)>) -> (r: Result<Self, &'static str>)
        ensures
            r is Ok <==> sorted_by_doc(entries@),
            r matches Ok(v) ==> v.wf() && v.kind_spec() == kind && v.entry_seq() == entries@,
            r matches Err(m) ==> m@ == "doc values must be sorted by doc id"@,
    {
        let mut i: usize = 1;
        while i < entries.len()
            invariant
                1 <= i,
                forall|a: int, b: int| 0 <= a <= b < i && b < entries@.len() ==> entries@[a].0 <= entries@[b].0,
            decreases entries@.len() - i,
        {
            if entries[i - 1].0 > entries[i].0 {
                proof {
                    reveal_strlit("doc values must be sorted by doc id");
                }
                return Err("doc values must be sorted by doc id");
            }
            proof {
                assert forall|a: int, b: int| 0 <= a <= b < i + 1 && b < entries@.len() implies entries@[a].0 <= entries@[b].0 by {
                    if b == i && a < b {
                        assert(entries@[a].0 <= entries@[i - 1].0);
                    }
                }
            }
            i += 1;
        }
        let block_first_doc = block_starts(&entries);
        Ok(DocValues { kind, entries, block_first_doc })
    }

    /// Whether the values are integers or floats.
    pub fn kind(&self) -> (r: NumericKind)
        ensures
            r == self.kind_spec(),
    {
        self.kind
    }

    /// How many entries there are.
    pub fn len(&self) -> (r: usize)
        ensures
            r == self.entry_seq().len(),
    {
        self.entries.len()
    }

    /// Whether there is no entry.
    pub fn is_empty(&self) -> (r: bool)
        ensures
            r == (self.entry_seq().len() == 0),
    {
        self.entries.len() == 0
    }

    /// The first document, if there is an entry.
    pub fn first_doc(&self) -> (r: Option<DocId>)
        ensures
            r == (if self.entry_seq().len() == 0 {
                None::<DocId>
            } else {
                Some(self.entry_seq()[0].0)
            }),
    {
        if self.entries.len() == 0 {
            None
        } else {
            Some(self.entries[0].0)
        }
    }

    /// The last document, if there is an entry.
    pub fn last_doc(&self) -> (r: Option<DocId>)
        ensures
            r == (if self.entry_seq().len() == 0 {
                None::<DocId>
            } else {
                Some(self.entry_seq().last().0)
            }),
    {
        if self.entries.len() == 0 {
            None
        } else {
            Some(self.entries[self.entries.len() - 1].0)
        }
    }

    /// The entries, ordered by document.
    pub fn entries(&self) -> (r: &[(DocId, u64)])
        ensures
            r@ == self.entry_seq(),
    {
        self.entries.as_slice()
    }

    /// The packed value of `doc_id`, if it has one; where it has several, one of them.
    pub fn get_packed(&self, doc_id: DocId) -> (r: Option<u64>)
        requires
            self.wf(),
        ensures
            r is None <==> !exists|i: int| 0 <= i < self.entry_seq().len() && self.entry_seq()[i].0 == doc_id,
            r matches Some(v) ==> exists|i: int|
                0 <= i < self.entry_seq().len() && self.entry_seq()[i] == (doc_id, v),
    {
        let n = self.entries.len();
        if n == 0 {
            return None;
        }
        if doc_id < self.entries[0].0 || doc_id > self.entries[n - 1].0 {
            proof {
                assert forall|i: int| 0 <= i < n implies self.entries@[i].0 != doc_id by {
                    assert(self.entries@[0].0 <= self.entries@[i].0 <= self.entries@[n - 1].0);
                }
            }
            return None;
        }
        let blocks = &self.block_first_doc;
        let mut lo: usize = 0;
        let mut hi: usize = blocks.len();
        while lo < hi
            invariant
                lo <= hi <= blocks@.len(),
                blocks@ == self.block_first_doc@,
                self.wf(),
                forall|k: int| 0 <= k < lo ==> blocks@[k] <= doc_id,
                forall|k: int| hi <= k < blocks@.len() ==> blocks@[k] > doc_id,
            decreases hi - lo,
        {
            let mid = lo + (hi - lo) / 2;
            if blocks[mid] <= doc_id {
                proof {
                    assert forall|k: int| 0 <= k <= mid implies blocks@[k] <= doc_id by {
                        assert(self.entries@[256 * k].0 <= self.entries@[256 * (mid as int)].0);
                    }
                }
                lo = mid + 1;
            } else {
                proof {
                    assert forall|k: int| mid <= k < blocks@.len() implies blocks@[k] > doc_id by {
                        assert(self.entries@[256 * (mid as int)].0 <= self.entries@[256 * k].0);
                    }
                }
                hi = mid;
            }
        }
        assert(blocks@[0] == self.entries@[0].0);
        let block: usize = if lo > 0 {
            lo - 1
        } else {
            0
        };
        let start = block * BLOCK_SIZE;
        let end = if n - start > BLOCK_SIZE {
            start + BLOCK_SIZE
        } else {
            n
        };
        proof {
            assert(blocks@[block as int] == self.entries@[start as int].0);
            assert forall|i: int| 0 <= i < n && self.entries@[i].0 == doc_id implies exists|j: int|
                start <= j < end && self.entries@[j].0 == doc_id by {
                if i < start {
                    assert(self.entries@[i].0 <= self.entries@[start as int].0);
                    assert(start <= start < end && self.entries@[start as int].0 == doc_id);
                } else if i >= end {
                    assert(blocks@[block + 1] == self.entries@[end as int].0);
                    assert(self.entries@[end as int].0 <= self.entries@[i].0);
                }
            }
        }
        let mut a: usize = start;
        let mut b: usize = end;
        while a < b
            invariant
                start <= a <= b <= end <= n,
                n == self.entries@.len(),
                self.wf(),
                forall|k: int| start <= k < a ==> self.entries@[k].0 < doc_id,
                forall|k: int| b <= k < end ==> self.entries@[k].0 >= doc_id,
                forall|i: int| 0 <= i < n && self.entries@[i].0 == doc_id ==> exists|j: int|
                    start <= j < end && self.entries@[j].0 == doc_id,
            decreases b - a,
        {
            let mid = a + (b - a) / 2;
            if self.entries[mid].0 < doc_id {
                a = mid + 1;
            } else {
                b = mid;
            }
        }
        if a < end && self.entries[a].0 == doc_id {
            proof {
                assert(self.entry_seq()[a as int] == (doc_id, self.entries@[a as int].1));
            }
            Some(self.entries[a].1)
        } else {
            proof {
                assert forall|j: int| start <= j < end implies self.entries@[j].0 != doc_id by {
                    if j >= a && a < end {
                        assert(self.entries@[a as int].0 <= self.entries@[j].0);
                    }
                }
            }
            None
        }
    }
}

impl Default for DocValues {
    /// Integer values for no document.
    fn default() -> (r: Self)
        ensures
            r.wf(),
            r.kind_spec() == NumericKind::Int,
            r.entry_seq().len() == 0,
    {
        DocValues::empty()
    }
}

} // verus!
