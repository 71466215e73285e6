use vstd::prelude::*;

use crate::numeric::values::{within, PackedBound, NumericKind};
use crate::sorting::{sorted_unique, strictly_increasing};
use crate::types::DocId;

verus! {

/// Whether the points are ordered by their packed value.
pub open spec fn sorted_by_value(points: Seq<(u64, DocId)>) -> bool {
    forall|i: int, j: int| 0 <= i <= j < points.len() ==> points[i].0 <= points[j].0
}

/// The documents of the points whose value lies within the bounds.
pub open spec fn docs_within(points: Seq<(u64, DocId)>, lo: Option<PackedBound>, hi: Option<PackedBound>) -> Set<DocId> {
    Set::new(|d: DocId| exists|i: int| 0 <= i < points.len() && points[i].1 == d && within(points[i].0, lo, hi))
}

/// The first place in `points`, sorted by value, whose value is at least `bound`, or above it
/// where `strict`: `partition_point` with `value < bound`, or `value <= bound`.
fn partition_point(points: &Vec<(u64, DocId)>, bound: u64, strict: bool) -> (r: usize)
    requires
        sorted_by_value(points@),
    ensures
        r <= points@.len(),
        forall|k: int| 0 <= k < r ==> if strict { points@[k].0 <= bound } else { points@[k].0 < bound },
        forall|k: int| r <= k < points@.len() ==> if strict { points@[k].0 > bound } else { points@[k].0 >= bound },
{
    let mut lo: usize = 0;
    let mut hi: usize = points.len();
    while lo < hi
        invariant
            lo <= hi <= points@.len(),
            sorted_by_value(points@),
            forall|k: int| 0 <= k < lo ==> if strict { points@[k].0 <= bound } else { points@[k].0 < bound },
            forall|k: int| hi <= k < points@.len() ==> if strict { points@[k].0 > bound } else { points@[k].0 >= bound },
        decreases hi - lo,
    {
        let mid = lo + (hi - lo) / 2;
        let before = if strict {
            points[mid].0 <= bound
        } else {
            points[mid].0 < bound
        };
        if before {
            lo = mid + 1;
        } else {
            hi = mid;
        }
    }
    lo
}

/// A one-dimensional tree of packed numeric values: the points of one field, ordered by value.
#[derive(Debug, Clone)]
pub struct Bkd {
    kind: NumericKind,
    points: Vec<(u64, DocId)>,
}

impl Bkd {
    /// The points, ordered by value.
    pub closed spec fn point_seq(&self) -> Seq<(u64, DocId)> {
        self.points@
    }

    /// Whether the values are integers or floats.
    pub closed spec fn kind_spec(&self) -> NumericKind {
        self.kind
    }

    /// The points are ordered by value.
    pub closed spec fn wf(&self) -> bool {
        sorted_by_value(self.points@)
    }

    /// A tree of integer values with no point.
    pub fn empty() -> (r: Self)
        ensures
            r.wf(),
            r.kind_spec() == NumericKind::Int,
            r.point_seq().len() == 0,
    {
        Bkd { kind: NumericKind::Int, points: Vec::new() }
    }

    /// The tree of `points`, which must be ordered by packed value.
    pub fn from_packed(kind: NumericKind, points: Vec<(u64, DocId)>) -> (r: Result<Self, &'static str>)
        ensures
            r is Ok <==> sorted_by_value(points@),
            r matches Ok(b) ==> b.wf() && b.kind_spec() == kind && b.point_seq() == points@,
            r matches Err(m) ==> m@ == "bkd points must be sorted by packed value"@,
    {
        let mut i: usize = 1;
        while i < points.len()
            invariant
                1 <= i,
                forall|a: int, b: int| 0 <= a <= b < i && b < points@.len() ==> points@[a].0 <= points@[b].0,
            decreases points@.len() - i,
        {
            if points[i - 1].0 > points[i].0 {
                proof {
                    reveal_strlit("bkd points must be sorted by packed value");
                }
                return Err("bkd points must be sorted by packed value");
            }
            proof {
                assert forall|a: int, b: int| 0 <= a <= b < i + 1 && b < points@.len() implies points@[a].0 <= points@[b].0 by {
                    if b == i && a < b {
                        assert(points@[a].0 <= points@[i - 1].0);
                    }
                }
            }
            i += 1;
        }
        Ok(Bkd { kind, points })
    }

    /// Whether the values are integers or floats.
    pub fn kind(&self) -> (r: NumericKind)
        ensures
            r == self.kind_spec(),
    {
        self.kind
    }

    /// How many points there are.
    pub fn len(&self) -> (r: usize)
        ensures
            r == self.point_seq().len(),
    {
        self.points.len()
    }

    /// Whether there is no point.
    pub fn is_empty(&self) -> (r: bool)
        ensures
            r == (self.point_seq().len() == 0),
    {
        self.points.len() == 0
    }

    /// The smallest value, if there is a point.
    pub fn min_value(&self) -> (r: Option<u64>)
        ensures
            r == (if self.point_seq().len() == 0 {
                None::<u64>
            } else {
                Some(self.point_seq()[0].0)
            }),
    {
        if self.points.len() == 0 {
            None
        } else {
            Some(self.points[0].0)
        }
    }

    /// The largest value, if there is a point.
    pub fn max_value(&self) -> (r: Option<u64>)
        ensures
            r == (if self.point_seq().len() == 0 {
                None::<u64>
            } else {
                Some(self.point_seq().last().0)
            }),
    {
        if self.points.len() == 0 {
            None
        } else {
            Some(self.points[self.points.len() - 1].0)
        }
    }

    /// The points, ordered by value.
    pub fn points(&self) -> (r: &[(u64, DocId)])
        ensures
            r@ == self.point_seq(),
    {
        self.points.as_slice()
    }

    /// The documents with a value within the bounds, each once, in increasing order.
    pub fn range_packed(&self, lo: Option<PackedBound>, hi: Option<PackedBound>) -> (r: Vec<DocId>)
        requires
            self.wf(),
        ensures
            strictly_increasing(r@),
            r@.to_set() == docs_within(self.point_seq(), lo, hi),
    {
        let start = match lo {
            Some(b) => partition_point(&self.points, b.value, !b.inclusive),
            None => 0,
        };
        let end = match hi {
            Some(b) => partition_point(&self.points, b.value, b.inclusive),
            None => self.points.len(),
        };
        let ghost pts = self.points@;
        proof {
            assert forall|k: int| 0 <= k < pts.len() implies (start <= k < end <==> within(pts[k].0, lo, hi)) by {}
        }
        if start >= end {
            let r: Vec<DocId> = Vec::new();
            proof {
                assert forall|d: DocId| !docs_within(pts, lo, hi).contains(d) by {
                    if docs_within(pts, lo, hi).contains(d) {
                        let k = choose|k: int| 0 <= k < pts.len() && pts[k].1 == d && within(pts[k].0, lo, hi);
                    }
                }
                assert(r@.to_set() =~= docs_within(pts, lo, hi));
            }
            return r;
        }
        let mut docs: Vec<DocId> = Vec::new();
        let mut i: usize = start;
        while i < end
            invariant
                start <= i <= end <= pts.len(),
                pts == self.points@,
                docs@.len() == i - start,
                forall|k: int| 0 <= k < docs@.len() ==> docs@[k] == pts[start + k].1,
            decreases end - i,
        {
            docs.push(self.points[i].1);
            i += 1;
        }
        let r = sorted_unique(docs.as_slice());
        proof {
            assert forall|d: DocId| docs@.to_set().contains(d) <==> docs_within(pts, lo, hi).contains(d) by {
                if docs@.to_set().contains(d) {
                    let k = choose|k: int| 0 <= k < docs@.len() && docs@[k] == d;
                    assert(pts[start + k].1 == d && within(pts[start + k].0, lo, hi));
                }
                if docs_within(pts, lo, hi).contains(d) {
                    let k = choose|k: int| 0 <= k < pts.len() && pts[k].1 == d && within(pts[k].0, lo, hi);
                    assert(docs@[k - start] == d);
                }
            }
            assert(r@.to_set() =~= docs_within(pts, lo, hi));
        }
        r
    }
}

impl Default for Bkd {
    /// A tree of integer values with no point.
    fn default() -> (r: Self)
        ensures
            r.wf(),
            r.kind_spec() == NumericKind::Int,
            r.point_seq().len() == 0,
    {
        Bkd::empty()
    }
}

} // verus!
