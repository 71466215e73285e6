//! Numbers as documents bring them: an integer or the bits of a float, collected per field path
//! in memory and turned, when the index is flushed, into trees and columns of packed values.

use vstd::prelude::*;

use crate::numbers::order_key;
use crate::numeric::bkd::Bkd;
use crate::numeric::doc_values::DocValues;
use crate::numeric::fields::{NumericField, NumericFields};
use crate::numeric::bkd::docs_within;
use crate::numeric::values::{pack_float_bits, pack_int, packed_float, unpack_float_bits, unpack_int, NumericKind, PackedBound};
use crate::sorting::{pair_le, pairs_sorted, sort_pairs, sorted_unique, strictly_increasing};
use crate::types::{DocId, XPathId};

verus! {

/// A number of a document: an integer, or a float held as its bits (`f64::to_bits`).
#[derive(Debug, Clone, Copy, PartialEq, Eq, Structural)]
pub enum NumericValue {
    Int(i64),
    Float(u64),
}

/// The kind of a number.
pub open spec fn value_kind(v: NumericValue) -> NumericKind {
    match v {
        NumericValue::Int(_) => NumericKind::Int,
        NumericValue::Float(_) => NumericKind::Float,
    }
}

/// A number packed so that packed numbers of one kind order as the numbers do (floats in
/// their total order).
pub open spec fn packed_of(v: NumericValue) -> u64 {
    match v {
        NumericValue::Int(i) => order_key(i) as u64,
        NumericValue::Float(b) => packed_float(b) as u64,
    }
}

impl NumericValue {
    /// The kind of the number.
    pub fn kind(self) -> (r: NumericKind)
        ensures
            r == value_kind(self),
    {
        match self {
            NumericValue::Int(_) => NumericKind::Int,
            NumericValue::Float(_) => NumericKind::Float,
        }
    }
}

/// The number packed.
pub fn pack(value: NumericValue) -> (r: u64)
    ensures
        r == packed_of(value),
{
    match value {
        NumericValue::Int(v) => pack_int(v),
        NumericValue::Float(bits) => pack_float_bits(bits),
    }
}

/// The number of kind `kind` that `packed` holds.
pub fn unpack(packed: u64, kind: NumericKind) -> (r: NumericValue)
    ensures
        value_kind(r) == kind,
        packed_of(r) == packed,
{
    match kind {
        NumericKind::Int => NumericValue::Int(unpack_int(packed)),
        NumericKind::Float => NumericValue::Float(unpack_float_bits(packed)),
    }
}

/// Whether `a` comes before `b` in the order of numbers: within a kind by value (floats in
/// their total order), and every integer before every float.
pub open spec fn value_less(a: NumericValue, b: NumericValue) -> bool {
    (value_kind(a) == value_kind(b) && packed_of(a) < packed_of(b)) || (a is Int && b is Float)
}

/// Within a kind, packing keeps numbers apart.
pub proof fn lemma_packed_injective(a: NumericValue, b: NumericValue)
    requires
        value_kind(a) == value_kind(b),
        packed_of(a) == packed_of(b),
    ensures
        a == b,
{
}

/// The order of numbers is a strict total order.
pub proof fn lemma_value_order(a: NumericValue, b: NumericValue, c: NumericValue)
    ensures
        !value_less(a, a),
        value_less(a, b) ==> !value_less(b, a),
        a == b || value_less(a, b) || value_less(b, a),
        value_less(a, b) && value_less(b, c) ==> value_less(a, c),
{
    if value_kind(a) == value_kind(b) && packed_of(a) == packed_of(b) {
        lemma_packed_injective(a, b);
    }
}

/// One end of a range of numbers.
#[derive(Debug, Clone, Copy, PartialEq, Eq, Structural)]
pub struct NumericBound {
    pub value: NumericValue,
    pub inclusive: bool,
}

impl NumericBound {
    /// Whether `value` lies below this bound taken as a lower end.
    pub fn below_lo(self, value: NumericValue) -> (r: bool)
        ensures
            r == (value_less(value, self.value) || (value == self.value && !self.inclusive)),
    {
        value_before(value, self.value) || (same_value(value, self.value) && !self.inclusive)
    }

    /// Whether `value` lies past this bound taken as an upper end.
    pub fn past_hi(self, value: NumericValue) -> (r: bool)
        ensures
            r == (value_less(self.value, value) || (value == self.value && !self.inclusive)),
    {
        value_before(self.value, value) || (same_value(value, self.value) && !self.inclusive)
    }
}

/// Whether `v` lies within the bounds.
pub open spec fn value_within(v: NumericValue, lo: Option<NumericBound>, hi: Option<NumericBound>) -> bool {
    (match lo {
        Some(b) => value_less(b.value, v) || (v == b.value && b.inclusive),
        None => true,
    }) && (match hi {
        Some(b) => value_less(v, b.value) || (v == b.value && b.inclusive),
        None => true,
    })
}

/// Whether `a` comes before `b`.
fn value_before(a: NumericValue, b: NumericValue) -> (r: bool)
    ensures
        r == value_less(a, b),
{
    match (a, b) {
        (NumericValue::Int(_), NumericValue::Float(_)) => true,
        (NumericValue::Float(_), NumericValue::Int(_)) => false,
        _ => pack(a) < pack(b),
    }
}

/// Whether `v` lies within the bounds.
pub fn in_bounds(v: NumericValue, lo: Option<NumericBound>, hi: Option<NumericBound>) -> (r: bool)
    ensures
        r == value_within(v, lo, hi),
{
    let above = match lo {
        Some(b) => value_before(b.value, v) || (same_value(v, b.value) && b.inclusive),
        None => true,
    };
    let below = match hi {
        Some(b) => value_before(v, b.value) || (same_value(v, b.value) && b.inclusive),
        None => true,
    };
    above && below
}

/// Whether the two numbers are the same.
fn same_value(a: NumericValue, b: NumericValue) -> (r: bool)
    ensures
        r == (a == b),
{
    match (a, b) {
        (NumericValue::Int(x), NumericValue::Int(y)) => x == y,
        (NumericValue::Float(x), NumericValue::Float(y)) => x == y,
        _ => false,
    }
}

/// The points as packed values with their documents.
pub open spec fn packed_points(points: Seq<(DocId, NumericValue)>) -> Seq<(u64, DocId)> {
    points.map_values(|p: (DocId, NumericValue)| (packed_of(p.1), p.0))
}

/// The points as documents with their packed values.
pub open spec fn packed_entries(points: Seq<(DocId, NumericValue)>) -> Seq<(DocId, u64)> {
    points.map_values(|p: (DocId, NumericValue)| (p.0, packed_of(p.1)))
}

/// The kind of the first point, integers where there is none.
pub open spec fn first_kind(points: Seq<(DocId, NumericValue)>) -> NumericKind {
    if points.len() > 0 {
        value_kind(points[0].1)
    } else {
        NumericKind::Int
    }
}

impl Bkd {
    /// The tree of `points`, of kind `kind`: packed, and ordered by value and then document.
    pub fn build(kind: NumericKind, points: &[(DocId, NumericValue)]) -> (r: Self)
        ensures
            r.wf(),
            r.kind_spec() == kind,
            pairs_sorted(r.point_seq()),
            r.point_seq().to_multiset() == packed_points(points@).to_multiset(),
    {
        let mut packed: Vec<(u64, u64)> = Vec::new();
        let mut i: usize = 0;
        while i < points.len()
            invariant
                i <= points@.len(),
                packed@ == packed_points(points@.take(i as int)),
            decreases points@.len() - i,
        {
            packed.push((pack(points[i].1), points[i].0));
            proof {
                assert(packed_points(points@.take(i + 1)) =~= packed_points(points@.take(i as int)).push(
                    (packed_of(points@[i as int].1), points@[i as int].0),
                ));
            }
            i += 1;
        }
        proof {
            assert(points@.take(points@.len() as int) =~= points@);
        }
        let sorted = sort_pairs(packed.as_slice());
        match Bkd::from_packed(kind, sorted) {
            Ok(b) => b,
            Err(_) => {
                proof {
                    assert(crate::numeric::bkd::sorted_by_value(sorted@)) by {
                        assert forall|a: int, b: int| 0 <= a <= b < sorted@.len() implies sorted@[a].0 <= sorted@[b].0 by {
                            if a < b {
                                assert(pair_le(sorted@[a], sorted@[b]));
                            }
                        }
                    }
                }
                Bkd::empty()
            },
        }
    }

    /// The tree of `points`, of the kind of the first of them (integers where there is none).
    pub fn from_points(points: &[(DocId, NumericValue)]) -> (r: Self)
        ensures
            r.wf(),
            r.kind_spec() == first_kind(points@),
            pairs_sorted(r.point_seq()),
            r.point_seq().to_multiset() == packed_points(points@).to_multiset(),
    {
        let kind = if points.len() > 0 {
            points[0].1.kind()
        } else {
            NumericKind::Int
        };
        Bkd::build(kind, points)
    }
}

impl DocValues {
    /// The column of `entries`, of kind `kind`: packed, and ordered by document.
    pub fn build(kind: NumericKind, entries: &[(DocId, NumericValue)]) -> (r: Self)
        ensures
            r.wf(),
            r.kind_spec() == kind,
            r.entry_seq().to_multiset() == packed_entries(entries@).to_multiset(),
    {
        let mut packed: Vec<(u64, u64)> = Vec::new();
        let mut i: usize = 0;
        while i < entries.len()
            invariant
                i <= entries@.len(),
                packed@ == packed_entries(entries@.take(i as int)),
            decreases entries@.len() - i,
        {
            packed.push((entries[i].0, pack(entries[i].1)));
            proof {
                assert(packed_entries(entries@.take(i + 1)) =~= packed_entries(entries@.take(i as int)).push(
                    (entries@[i as int].0, packed_of(entries@[i as int].1)),
                ));
            }
            i += 1;
        }
        proof {
            assert(entries@.take(entries@.len() as int) =~= entries@);
        }
        let sorted = sort_pairs(packed.as_slice());
        match DocValues::from_packed(kind, sorted) {
            Ok(v) => v,
            Err(_) => {
                proof {
                    assert(crate::numeric::doc_values::sorted_by_doc(sorted@)) by {
                        assert forall|a: int, b: int| 0 <= a <= b < sorted@.len() implies sorted@[a].0 <= sorted@[b].0 by {
                            if a < b {
                                assert(pair_le(sorted@[a], sorted@[b]));
                            }
                        }
                    }
                }
                DocValues::empty()
            },
        }
    }

    /// The column of `entries`, of the kind of the first of them (integers where there is none).
    pub fn from_points(entries: &[(DocId, NumericValue)]) -> (r: Self)
        ensures
            r.wf(),
            r.kind_spec() == first_kind(entries@),
            r.entry_seq().to_multiset() == packed_entries(entries@).to_multiset(),
    {
        let kind = if entries.len() > 0 {
            entries[0].1.kind()
        } else {
            NumericKind::Int
        };
        DocValues::build(kind, entries)
    }
}

/// A bound with its number packed.
pub open spec fn packed_bound(b: Option<NumericBound>) -> Option<PackedBound> {
    match b {
        Some(b) => Some(PackedBound { value: packed_of(b.value), inclusive: b.inclusive }),
        None => None,
    }
}

/// The bound with its number packed.
fn pack_bound(b: Option<NumericBound>) -> (r: Option<PackedBound>)
    ensures
        r == packed_bound(b),
{
    match b {
        Some(b) => Some(PackedBound { value: pack(b.value), inclusive: b.inclusive }),
        None => None,
    }
}

impl Bkd {
    /// The documents, in increasing order and each once, whose packed value lies within the
    /// bounds, the bounds' numbers packed the same way.
    pub fn range(&self, lo: Option<NumericBound>, hi: Option<NumericBound>) -> (r: Vec<DocId>)
        requires
            self.wf(),
        ensures
            strictly_increasing(r@),
            r@.to_set() == docs_within(self.point_seq(), packed_bound(lo), packed_bound(hi)),
    {
        self.range_packed(pack_bound(lo), pack_bound(hi))
    }
}

impl DocValues {
    /// The number of `doc_id`, unpacked, if it has one; where it has several, one of them.
    pub fn get(&self, doc_id: DocId) -> (r: Option<NumericValue>)
        requires
            self.wf(),
        ensures
            r is None <==> !exists|i: int| 0 <= i < self.entry_seq().len() && self.entry_seq()[i].0 == doc_id,
            r matches Some(v) ==> value_kind(v) == self.kind_spec() && exists|i: int|
                0 <= i < self.entry_seq().len() && self.entry_seq()[i] == (doc_id, packed_of(v)),
    {
        match self.get_packed(doc_id) {
            Some(p) => Some(unpack(p, self.kind())),
            None => None,
        }
    }
}

impl NumericFields {
    /// The documents of the field `xpath`, in increasing order and each once, whose value
    /// lies within the bounds; none where the field is missing.
    pub fn range(&self, xpath: XPathId, lo: Option<NumericBound>, hi: Option<NumericBound>) -> (r: Vec<DocId>)
        requires
            self.wf(),
        ensures
            strictly_increasing(r@),
            match self.field_of(xpath) {
                Some(f) => r@.to_set() == docs_within(f.bkd.point_seq(), packed_bound(lo), packed_bound(hi)),
                None => r@.len() == 0,
            },
    {
        self.range_packed(xpath, pack_bound(lo), pack_bound(hi))
    }

    /// The number of `doc_id` in the field `xpath`, unpacked, if it has one.
    pub fn get(&self, xpath: XPathId, doc_id: DocId) -> (r: Option<NumericValue>)
        requires
            self.wf(),
        ensures
            match self.field_of(xpath) {
                None => r is None,
                Some(f) => {
                    &&& (r is None <==> !exists|i: int|
                        0 <= i < f.doc_values.entry_seq().len() && f.doc_values.entry_seq()[i].0 == doc_id)
                    &&& (r matches Some(v) ==> value_kind(v) == f.doc_values.kind_spec() && exists|i: int|
                        0 <= i < f.doc_values.entry_seq().len() && f.doc_values.entry_seq()[i] == (doc_id, packed_of(v)))
                },
            },
    {
        match self.field(xpath) {
            Some(f) => {
                assert(f.wf());
                f.doc_values.get(doc_id)
            },
            None => None,
        }
    }

    /// Every document of the field `xpath` with its number unpacked, ordered by document;
    /// none where the field is missing.
    pub fn values(&self, xpath: XPathId) -> (r: Vec<(DocId, NumericValue)>)
        requires
            self.wf(),
        ensures
            match self.field_of(xpath) {
                Some(f) => r@.len() == f.doc_values.entry_seq().len() && forall|i: int| 0 <= i < r@.len() ==> {
                    &&& (#[trigger] r@[i]).0 == f.doc_values.entry_seq()[i].0
                    &&& value_kind(r@[i].1) == f.doc_values.kind_spec()
                    &&& packed_of(r@[i].1) == f.doc_values.entry_seq()[i].1
                },
                None => r@.len() == 0,
            },
    {
        match self.field(xpath) {
            Some(f) => {
                let kind = f.doc_values.kind();
                let entries = f.doc_values.entries();
                let mut out: Vec<(DocId, NumericValue)> = Vec::new();
                let mut i: usize = 0;
                while i < entries.len()
                    invariant
                        i <= entries@.len(),
                        out@.len() == i,
                        forall|j: int| 0 <= j < i ==> {
                            &&& (#[trigger] out@[j]).0 == entries@[j].0
                            &&& value_kind(out@[j].1) == kind
                            &&& packed_of(out@[j].1) == entries@[j].1
                        },
                    decreases entries@.len() - i,
                {
                    out.push((entries[i].0, unpack(entries[i].1, kind)));
                    i += 1;
                }
                out
            },
            None => Vec::new(),
        }
    }
}

/// Whether `out` is what looking up each of `docs` in turn among `entries` of kind `kind`
/// gives: the document with its value, unpacked, for each document that has one, skipping
/// the others.
pub open spec fn looked_up(entries: Seq<(DocId, u64)>, kind: NumericKind, docs: Seq<DocId>, out: Seq<(DocId, NumericValue)>) -> bool
    decreases docs.len(),
{
    if docs.len() == 0 {
        out.len() == 0
    } else if exists|i: int| 0 <= i < entries.len() && #[trigger] entries[i].0 == docs.last() {
        &&& out.len() > 0
        &&& out.last().0 == docs.last()
        &&& value_kind(out.last().1) == kind
        &&& exists|i: int| 0 <= i < entries.len() && #[trigger] entries[i] == (docs.last(), packed_of(out.last().1))
        &&& looked_up(entries, kind, docs.drop_last(), out.drop_last())
    } else {
        looked_up(entries, kind, docs.drop_last(), out)
    }
}

impl DocValues {
    /// The value of each of `docs` that has one, in the order of `docs`.
    pub fn values_for(&self, docs: &[DocId]) -> (r: Vec<(DocId, NumericValue)>)
        requires
            self.wf(),
        ensures
            looked_up(self.entry_seq(), self.kind_spec(), docs@, r@),
    {
        let kind = self.kind();
        let mut out: Vec<(DocId, NumericValue)> = Vec::new();
        let mut i: usize = 0;
        while i < docs.len()
            invariant
                self.wf(),
                kind == self.kind_spec(),
                i <= docs@.len(),
                looked_up(self.entry_seq(), kind, docs@.take(i as int), out@),
            decreases docs@.len() - i,
        {
            let d = docs[i];
            let ghost before = out@;
            proof {
                assert(docs@.take(i + 1).drop_last() =~= docs@.take(i as int));
                assert(docs@.take(i + 1).last() == d);
            }
            match self.get_packed(d) {
                Some(p) => {
                    let v = unpack(p, kind);
                    out.push((d, v));
                    proof {
                        assert(out@.drop_last() =~= before);
                        let e = self.entry_seq();
                        let w = choose|w: int| 0 <= w < e.len() && e[w] == (d, p);
                        assert(e[w].0 == d);
                        assert(e[w] == (d, packed_of(out@.last().1)));
                    }
                },
                None => {},
            }
            i += 1;
        }
        proof {
            assert(docs@.take(docs@.len() as int) =~= docs@);
        }
        out
    }
}

/// A copy of the points.
fn copy_points(points: &[(DocId, NumericValue)]) -> (r: Vec<(DocId, NumericValue)>)
    ensures
        r@ == points@,
{
    let mut out: Vec<(DocId, NumericValue)> = Vec::new();
    let mut i: usize = 0;
    while i < points.len()
        invariant
            i <= points@.len(),
            out@ == points@.take(i as int),
        decreases points@.len() - i,
    {
        out.push(points[i]);
        proof {
            assert(points@.take(i + 1) =~= points@.take(i as int).push(points@[i as int]));
        }
        i += 1;
    }
    proof {
        assert(points@.take(points@.len() as int) =~= points@);
    }
    out
}

/// Whether `f` is the field built from `points`: the tree and the column of their values.
pub open spec fn built_from(f: NumericField, points: Seq<(DocId, NumericValue)>) -> bool {
    &&& f.wf()
    &&& f.bkd.kind_spec() == first_kind(points)
    &&& f.doc_values.kind_spec() == first_kind(points)
    &&& f.bkd.point_seq().to_multiset() == packed_points(points).to_multiset()
    &&& f.doc_values.entry_seq().to_multiset() == packed_entries(points).to_multiset()
}

/// Whether `o` is a field built from `points`.
pub open spec fn field_built(o: Option<NumericField>, points: Seq<(DocId, NumericValue)>) -> bool {
    match o {
        Some(f) => built_from(f, points),
        None => false,
    }
}

/// The paths of `fields` are all different.
pub open spec fn paths_distinct(fields: Seq<(XPathId, Vec<(DocId, NumericValue)>)>) -> bool {
    forall|i: int, j: int| 0 <= i < j < fields.len() ==> fields[i].0 != fields[j].0
}

impl NumericFields {
    /// The fields built from the points of each path.
    pub fn from_points(points: &[(XPathId, Vec<(DocId, NumericValue)>)]) -> (r: Self)
        requires
            paths_distinct(points@),
        ensures
            r.wf(),
            forall|i: int| 0 <= i < points@.len() ==> field_built(#[trigger] r.field_of(points@[i].0), points@[i].1@),
            forall|x: XPathId| (forall|i: int| 0 <= i < points@.len() ==> points@[i].0 != x) ==> (#[trigger] r.field_of(
                x,
            )) is None,
    {
        let mut r = NumericFields::new();
        proof {
            assert forall|x: XPathId| #[trigger] r.field_of(x) is None by {}
        }
        let mut i: usize = 0;
        while i < points.len()
            invariant
                i <= points@.len(),
                paths_distinct(points@),
                r.wf(),
                forall|k: int| 0 <= k < i ==> field_built(#[trigger] r.field_of(points@[k].0), points@[k].1@),
                forall|x: XPathId| (forall|k: int| 0 <= k < i ==> points@[k].0 != x) ==> (#[trigger] r.field_of(x)) is None,
            decreases points@.len() - i,
        {
            let xpath = points[i].0;
            let copy = copy_points(points[i].1.as_slice());
            let bkd = Bkd::from_points(copy.as_slice());
            let doc_values = DocValues::from_points(points[i].1.as_slice());
            let field = NumericField { bkd, doc_values };
            let ghost before = r;
            r.insert_field(xpath, field);
            proof {
                assert forall|k: int| 0 <= k < i + 1 implies field_built(#[trigger] r.field_of(points@[k].0), points@[k].1@) by {
                    if k < i {
                        assert(points@[k].0 != xpath);
                        assert(r.field_of(points@[k].0) == before.field_of(points@[k].0));
                    }
                }
                assert forall|x: XPathId| (forall|k: int| 0 <= k < i + 1 ==> points@[k].0 != x) implies (#[trigger] r.field_of(
                    x,
                )) is None by {
                    assert(points@[i as int].0 != x);
                    assert(r.field_of(x) == before.field_of(x));
                }
            }
            i += 1;
        }
        r
    }
}

/// The points of path `x` in `es` from place `i` on: those of the first entry of that path.
pub open spec fn points_at(es: Seq<(XPathId, Vec<(DocId, NumericValue)>)>, x: XPathId, i: int) -> Seq<(DocId, NumericValue)>
    decreases es.len() - i,
{
    if i < 0 || i >= es.len() {
        Seq::empty()
    } else if es[i].0 == x {
        es[i].1@
    } else {
        points_at(es, x, i + 1)
    }
}

proof fn lemma_points_at_found(es: Seq<(XPathId, Vec<(DocId, NumericValue)>)>, x: XPathId, i: int, k: int)
    requires
        0 <= i <= k < es.len(),
        es[k].0 == x,
        forall|j: int| i <= j < k ==> es[j].0 != x,
    ensures
        points_at(es, x, i) == es[k].1@,
    decreases k - i,
{
    if i < k {
        lemma_points_at_found(es, x, i + 1, k);
    }
}

proof fn lemma_points_at_absent(es: Seq<(XPathId, Vec<(DocId, NumericValue)>)>, x: XPathId, i: int)
    requires
        0 <= i,
        forall|j: int| i <= j < es.len() ==> es[j].0 != x,
    ensures
        points_at(es, x, i) == Seq::<(DocId, NumericValue)>::empty(),
    decreases es.len() - i,
{
    if i < es.len() {
        lemma_points_at_absent(es, x, i + 1);
    }
}

/// What `points_at` gives for a path, found where its entry stands.
proof fn lemma_points_at(es: Seq<(XPathId, Vec<(DocId, NumericValue)>)>, x: XPathId)
    requires
        paths_distinct(es),
    ensures
        forall|k: int| 0 <= k < es.len() && es[k].0 == x ==> points_at(es, x, 0) == #[trigger] es[k].1@,
        (forall|k: int| 0 <= k < es.len() ==> es[k].0 != x) ==> points_at(es, x, 0) == Seq::<
            (DocId, NumericValue),
        >::empty(),
{
    assert forall|k: int| 0 <= k < es.len() && es[k].0 == x implies points_at(es, x, 0) == #[trigger] es[k].1@ by {
        lemma_points_at_found(es, x, 0, k);
    }
    if forall|k: int| 0 <= k < es.len() ==> es[k].0 != x {
        lemma_points_at_absent(es, x, 0);
    }
}

/// The first value that `points` give the document `doc`, if any.
pub open spec fn first_value(points: Seq<(DocId, NumericValue)>, doc: DocId, i: int) -> Option<NumericValue>
    decreases points.len() - i,
{
    if i < 0 || i >= points.len() {
        None
    } else if points[i].0 == doc {
        Some(points[i].1)
    } else {
        first_value(points, doc, i + 1)
    }
}

/// The documents of `points` whose value lies within the bounds.
pub open spec fn docs_in(points: Seq<(DocId, NumericValue)>, lo: Option<NumericBound>, hi: Option<NumericBound>) -> Set<DocId> {
    Set::new(|d: DocId| exists|i: int| 0 <= i < points.len() && points[i].0 == d && value_within(points[i].1, lo, hi))
}

/// How many points the entries hold together.
pub open spec fn total_len(es: Seq<(XPathId, Vec<(DocId, NumericValue)>)>) -> nat
    decreases es.len(),
{
    if es.len() == 0 {
        0
    } else {
        total_len(es.drop_last()) + es.last().1@.len()
    }
}

/// The numbers of the documents indexed since the last flush, per field path, in the order
/// they came.
#[derive(Debug, Clone)]
pub struct NumericPoints {
    points: Vec<(XPathId, Vec<(DocId, NumericValue)>)>,
}

impl NumericPoints {
    /// The entries, one per path.
    pub closed spec fn entries(&self) -> Seq<(XPathId, Vec<(DocId, NumericValue)>)> {
        self.points@
    }

    /// The points of path `x`.
    pub open spec fn of(&self, x: XPathId) -> Seq<(DocId, NumericValue)> {
        points_at(self.entries(), x, 0)
    }

    /// One entry per path, and none empty.
    pub closed spec fn wf(&self) -> bool {
        &&& paths_distinct(self.points@)
        &&& forall|i: int| 0 <= i < self.points@.len() ==> (#[trigger] self.points@[i]).1@.len() > 0
    }

    /// No points.
    pub fn new() -> (r: Self)
        ensures
            r.wf(),
            forall|x: XPathId| #[trigger] r.of(x) == Seq::<(DocId, NumericValue)>::empty(),
    {
        NumericPoints { points: Vec::new() }
    }

    /// Where the entry of `xpath` stands, if there is one.
    fn find(&self, xpath: XPathId) -> (r: Option<usize>)
        requires
            self.wf(),
        ensures
            match r {
                Some(i) => i < self.entries().len() && self.entries()[i as int].0 == xpath && self.of(xpath)
                    == self.entries()[i as int].1@,
                None => forall|k: int| 0 <= k < self.entries().len() ==> self.entries()[k].0 != xpath,
            },
    {
        proof {
            lemma_points_at(self.points@, xpath);
        }
        let mut i: usize = 0;
        while i < self.points.len()
            invariant
                i <= self.points@.len(),
                forall|k: int| 0 <= k < i ==> self.points@[k].0 != xpath,
            decreases self.points@.len() - i,
        {
            if self.points[i].0 == xpath {
                proof {
                    lemma_points_at_found(self.points@, xpath, 0, i as int);
                }
                return Some(i);
            }
            i += 1;
        }
        None
    }

    /// Adds the value `value` of the document `doc_id` at `xpath`.
    pub fn insert(&mut self, xpath: XPathId, value: NumericValue, doc_id: DocId)
        requires
            old(self).wf(),
        ensures
            final(self).wf(),
            final(self).of(xpath) == old(self).of(xpath).push((doc_id, value)),
            forall|y: XPathId| y != xpath ==> #[trigger] final(self).of(y) == old(self).of(y),
    {
        let ghost es = self.points@;
        proof {
            lemma_points_at(es, xpath);
        }
        match self.find(xpath) {
            Some(i) => {
                let ghost old_list = self.points@[i as int].1@;
                self.points[i].1.push((doc_id, value));
                proof {
                    let now = self.points@;
                    assert(now[i as int].1@ == old_list.push((doc_id, value)));
                    assert(now[i as int].0 == es[i as int].0);
                    assert forall|k: int| 0 <= k < now.len() && k != i implies now[k] == es[k] by {}
                    assert forall|p: int, q: int| 0 <= p < q < now.len() implies now[p].0 != now[q].0 by {
                        assert(now[p].0 == es[p].0 && now[q].0 == es[q].0);
                    }
                    assert forall|k: int| 0 <= k < now.len() implies (#[trigger] now[k]).1@.len() > 0 by {
                        if k != i {
                            assert(now[k] == es[k]);
                        }
                    }
                    lemma_points_at(now, xpath);
                    assert forall|y: XPathId| y != xpath implies #[trigger] points_at(now, y, 0) == points_at(es, y, 0) by {
                        lemma_points_at(now, y);
                        lemma_points_at(es, y);
                        if exists|k: int| 0 <= k < es.len() && es[k].0 == y {
                            let k = choose|k: int| 0 <= k < es.len() && es[k].0 == y;
                            assert(now[k] == es[k]);
                        }
                    }
                }
            },
            None => {
                proof {
                    assert forall|k: int| 0 <= k < es.len() implies es[k].0 != xpath by {
                        assert(self.entries()[k].0 != xpath);
                    }
                }
                let mut list: Vec<(DocId, NumericValue)> = Vec::new();
                list.push((doc_id, value));
                self.points.push((xpath, list));
                proof {
                    let now = self.points@;
                    assert(now[es.len() as int].0 == xpath);
                    assert forall|p: int, q: int| 0 <= p < q < now.len() implies now[p].0 != now[q].0 by {
                        if q == es.len() {
                            assert(now[p] == es[p]);
                            assert(es[p].0 != xpath);
                        } else {
                            assert(now[p] == es[p] && now[q] == es[q]);
                        }
                    }
                    assert forall|k: int| 0 <= k < now.len() implies (#[trigger] now[k]).1@.len() > 0 by {
                        if k < es.len() {
                            assert(now[k] == es[k]);
                        }
                    }
                    lemma_points_at(now, xpath);
                    assert(es == now.take(es.len() as int));
                    assert forall|y: XPathId| y != xpath implies #[trigger] points_at(now, y, 0) == points_at(es, y, 0) by {
                        lemma_points_at(now, y);
                        lemma_points_at(es, y);
                        if exists|k: int| 0 <= k < es.len() && es[k].0 == y {
                            let k = choose|k: int| 0 <= k < es.len() && es[k].0 == y;
                            assert(now[k] == es[k]);
                        }
                    }
                    assert(Seq::<(DocId, NumericValue)>::empty().push((doc_id, value)) =~= now[es.len() as int].1@);
                }
            },
        }
    }

    /// The first value of the document `doc_id` at `xpath`, if any.
    pub fn get(&self, xpath: XPathId, doc_id: DocId) -> (r: Option<NumericValue>)
        requires
            self.wf(),
        ensures
            r == first_value(self.of(xpath), doc_id, 0),
    {
        proof {
            lemma_points_at(self.points@, xpath);
        }
        let i = match self.find(xpath) {
            Some(i) => i,
            None => {
                return None;
            },
        };
        let list = &self.points[i].1;
        let mut k: usize = 0;
        while k < list.len()
            invariant
                k <= list@.len(),
                list@ == self.of(xpath),
                first_value(list@, doc_id, 0) == first_value(list@, doc_id, k as int),
            decreases list@.len() - k,
        {
            if list[k].0 == doc_id {
                return Some(list[k].1);
            }
            k += 1;
        }
        None
    }

    /// The points of `xpath`, in the order they came.
    pub fn values(&self, xpath: XPathId) -> (r: Vec<(DocId, NumericValue)>)
        requires
            self.wf(),
        ensures
            r@ == self.of(xpath),
    {
        proof {
            lemma_points_at(self.points@, xpath);
        }
        match self.find(xpath) {
            Some(i) => copy_points(self.points[i].1.as_slice()),
            None => Vec::new(),
        }
    }

    /// The documents at `xpath` with a value within the bounds, each once, in increasing order.
    pub fn range(&self, xpath: XPathId, lo: Option<NumericBound>, hi: Option<NumericBound>) -> (r: Vec<DocId>)
        requires
            self.wf(),
        ensures
            strictly_increasing(r@),
            r@.to_set() == docs_in(self.of(xpath), lo, hi),
    {
        proof {
            lemma_points_at(self.points@, xpath);
        }
        let i = match self.find(xpath) {
            Some(i) => i,
            None => {
                let r: Vec<DocId> = Vec::new();
                proof {
                    assert(r@.to_set() =~= docs_in(self.of(xpath), lo, hi));
                }
                return r;
            },
        };
        let list = &self.points[i].1;
        let mut docs: Vec<DocId> = Vec::new();
        let mut k: usize = 0;
        while k < list.len()
            invariant
                k <= list@.len(),
                list@ == self.of(xpath),
                forall|d: DocId| docs@.contains(d) <==> exists|j: int|
                    0 <= j < k && list@[j].0 == d && value_within(list@[j].1, lo, hi),
            decreases list@.len() - k,
        {
            if in_bounds(list[k].1, lo, hi) {
                let ghost before = docs@;
                docs.push(list[k].0);
                proof {
                    assert forall|d: DocId| docs@.contains(d) <==> exists|j: int|
                        0 <= j < k + 1 && list@[j].0 == d && value_within(list@[j].1, lo, hi) by {
                        if docs@.contains(d) && d != list@[k as int].0 {
                            let m = choose|m: int| 0 <= m < docs@.len() && docs@[m] == d;
                            assert(before[m] == d);
                            assert(before.contains(d));
                        }
                        if exists|j: int| 0 <= j < k && list@[j].0 == d && value_within(list@[j].1, lo, hi) {
                            assert(before.contains(d));
                            let m = choose|m: int| 0 <= m < before.len() && before[m] == d;
                            assert(docs@[m] == d);
                        }
                        if d == list@[k as int].0 {
                            assert(docs@[before.len() as int] == d);
                        }
                    }
                }
            }
            k += 1;
        }
        let r = sorted_unique(docs.as_slice());
        proof {
            assert(r@.to_set() =~= docs_in(self.of(xpath), lo, hi));
        }
        r
    }

    /// How many points there are, which must fit a `usize`.
    pub fn len(&self) -> (r: usize)
        requires
            total_len(self.entries()) <= usize::MAX,
        ensures
            r == total_len(self.entries()),
    {
        let mut total: usize = 0;
        let mut i: usize = 0;
        while i < self.points.len()
            invariant
                i <= self.points@.len(),
                total == total_len(self.points@.take(i as int)),
                total_len(self.points@) <= usize::MAX,
            decreases self.points@.len() - i,
        {
            proof {
                assert(self.points@.take(i + 1).drop_last() =~= self.points@.take(i as int));
                lemma_total_len_prefix(self.points@, i + 1);
            }
            total = total + self.points[i].1.len();
            i += 1;
        }
        proof {
            assert(self.points@.take(self.points@.len() as int) =~= self.points@);
        }
        total
    }

    /// Whether there are no points.
    pub fn is_empty(&self) -> (r: bool)
        requires
            self.wf(),
        ensures
            r == (forall|x: XPathId| #[trigger] self.of(x).len() == 0),
    {
        proof {
            if self.points@.len() > 0 {
                let x = self.points@[0].0;
                lemma_points_at(self.points@, x);
                assert(self.of(x).len() > 0);
            } else {
                assert forall|x: XPathId| #[trigger] self.of(x).len() == 0 by {}
            }
        }
        self.points.len() == 0
    }

    /// The numeric fields of the points: a tree and a column of values per path.
    pub fn build(self) -> (r: NumericFields)
        requires
            self.wf(),
        ensures
            r.wf(),
            forall|x: XPathId| #[trigger] self.of(x).len() > 0 ==> field_built(r.field_of(x), self.of(x)),
            forall|x: XPathId| #[trigger] self.of(x).len() == 0 ==> r.field_of(x) is None,
    {
        let r = NumericFields::from_points(self.points.as_slice());
        proof {
            assert forall|x: XPathId| #[trigger] self.of(x).len() > 0 implies field_built(r.field_of(x), self.of(x)) by {
                lemma_points_at(self.points@, x);
                if forall|k: int| 0 <= k < self.points@.len() ==> self.points@[k].0 != x {
                } else {
                    let k = choose|k: int| 0 <= k < self.points@.len() && self.points@[k].0 == x;
                    assert(field_built(r.field_of(self.points@[k].0), self.points@[k].1@));
                }
            }
            assert forall|x: XPathId| #[trigger] self.of(x).len() == 0 implies r.field_of(x) is None by {
                lemma_points_at(self.points@, x);
                if exists|k: int| 0 <= k < self.points@.len() && self.points@[k].0 == x {
                    let k = choose|k: int| 0 <= k < self.points@.len() && self.points@[k].0 == x;
                    assert(self.points@[k].1@.len() > 0);
                }
            }
        }
        r
    }
}

/// The total grows with the entries it takes in.
proof fn lemma_total_len_prefix(es: Seq<(XPathId, Vec<(DocId, NumericValue)>)>, i: int)
    requires
        0 <= i <= es.len(),
    ensures
        total_len(es.take(i)) <= total_len(es),
    decreases es.len() - i,
{
    if i < es.len() {
        lemma_total_len_prefix(es, i + 1);
        assert(es.take(i + 1).drop_last() =~= es.take(i));
    } else {
        assert(es.take(i) =~= es);
    }
}

} // verus!
