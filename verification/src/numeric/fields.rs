use vstd::prelude::*;

use crate::numeric::bkd::Bkd;
use crate::numeric::doc_values::DocValues;
use crate::numeric::values::PackedBound;
use crate::sorting::strictly_increasing;
use crate::types::{DocId, XPathId};

verus! {

/// The tree of values and the column of values of one numeric field.
#[derive(Debug, Clone)]
pub struct NumericField {
    pub bkd: Bkd,
    pub doc_values: DocValues,
}

impl NumericField {
    /// Both parts are well formed.
    pub open spec fn wf(&self) -> bool {
        self.bkd.wf() && self.doc_values.wf()
    }
}

/// How many points the fields hold together.
pub open spec fn total_points(fields: Seq<(XPathId, NumericField)>) -> nat
    decreases fields.len(),
{
    if fields.len() == 0 {
        0
    } else {
        total_points(fields.drop_last()) + fields.last().1.bkd.point_seq().len()
    }
}

/// The numeric fields of one segment, one per field path, ordered by path.
#[derive(Debug, Clone)]
pub struct NumericFields {
    fields: Vec<(XPathId, NumericField)>,
}

impl NumericFields {
    /// The fields with their paths, in order of path.
    pub closed spec fn field_seq(&self) -> Seq<(XPathId, NumericField)> {
        self.fields@
    }

    /// The paths increase and every field is well formed.
    pub closed spec fn wf(&self) -> bool {
        &&& forall|i: int, j: int| 0 <= i < j < self.fields@.len() ==> self.fields@[i].0 < self.fields@[j].0
        &&& forall|i: int| 0 <= i < self.fields@.len() ==> (#[trigger] self.fields@[i]).1.wf()
    }

    /// The field of path `xpath`, if there is one.
    pub open spec fn field_of(&self, xpath: XPathId) -> Option<NumericField> {
        if exists|i: int| 0 <= i < self.field_seq().len() && self.field_seq()[i].0 == xpath {
            Some(self.field_seq()[choose|i: int| 0 <= i < self.field_seq().len() && self.field_seq()[i].0 == xpath].1)
        } else {
            None
        }
    }

    /// The field at place `i` is the field of its path.
    pub proof fn lemma_field_at(&self, i: int)
        requires
            self.wf(),
            0 <= i < self.field_seq().len(),
        ensures
            self.field_of(self.field_seq()[i].0) == Some(self.field_seq()[i].1),
    {
        let x = self.field_seq()[i].0;
        assert(exists|k: int| 0 <= k < self.field_seq().len() && self.field_seq()[k].0 == x);
        let k = choose|k: int| 0 <= k < self.field_seq().len() && self.field_seq()[k].0 == x;
        if k != i {
            if k < i {
                assert(self.fields@[k].0 < self.fields@[i].0);
            } else {
                assert(self.fields@[i].0 < self.fields@[k].0);
            }
        }
    }

    /// No field.
    pub fn new() -> (r: Self)
        ensures
            r.wf(),
            r.field_seq().len() == 0,
    {
        NumericFields { fields: Vec::new() }
    }

    /// Where the field of `xpath` stands, if there is one.
    fn position(&self, xpath: XPathId) -> (r: Option<usize>)
        requires
            self.wf(),
        ensures
            match r {
                Some(i) => i < self.fields@.len() && self.fields@[i as int].0 == xpath,
                None => forall|k: int| 0 <= k < self.fields@.len() ==> self.fields@[k].0 != xpath,
            },
    {
        let mut i: usize = 0;
        while i < self.fields.len()
            invariant
                i <= self.fields@.len(),
                forall|k: int| 0 <= k < i ==> self.fields@[k].0 != xpath,
            decreases self.fields@.len() - i,
        {
            if self.fields[i].0 == xpath {
                return Some(i);
            }
            i += 1;
        }
        None
    }

    /// The field of path `xpath`, if there is one.
    pub fn field(&self, xpath: XPathId) -> (r: Option<&NumericField>)
        requires
            self.wf(),
        ensures
            match r {
                Some(f) => self.field_of(xpath) == Some(*f),
                None => self.field_of(xpath) is None,
            },
            r matches Some(f) ==> f.wf(),
    {
        match self.position(xpath) {
            Some(i) => {
                proof {
                    self.lemma_field_at(i as int);
                    assert(self.fields@[i as int].1.wf());
                }
                Some(&self.fields[i].1)
            },
            None => None,
        }
    }

    /// Sets the field of path `xpath` to `field`, in place of the one it had.
    pub fn insert_field(&mut self, xpath: XPathId, field: NumericField)
        requires
            old(self).wf(),
            field.wf(),
        ensures
            final(self).wf(),
            final(self).field_of(xpath) == Some(field),
            forall|x: XPathId| x != xpath ==> #[trigger] final(self).field_of(x) == old(self).field_of(x),
    {
        let n = self.fields.len();
        let mut i: usize = 0;
        while i < n && self.fields[i].0 < xpath
            invariant
                i <= n,
                n == self.fields@.len(),
                self.wf(),
                forall|k: int| 0 <= k < i ==> self.fields@[k].0 < xpath,
            decreases n - i,
        {
            i += 1;
        }
        let ghost before = self.fields@;
        if i < n && self.fields[i].0 == xpath {
            self.fields.set(i, (xpath, field));
        } else {
            self.fields.insert(i, (xpath, field));
        }
        proof {
            let now = self.fields@;
            let replaced = i < n && before[i as int].0 == xpath;
            assert forall|a: int, b: int| 0 <= a < b < now.len() implies now[a].0 < now[b].0 by {
                if !replaced {
                    if b < i {
                    } else if b == i {
                    } else if a < i {
                        assert(now[b] == before[b - 1]);
                    } else if a == i {
                        assert(now[b] == before[b - 1]);
                    } else {
                        assert(now[a] == before[a - 1]);
                        assert(now[b] == before[b - 1]);
                    }
                }
            }
            assert forall|k: int| 0 <= k < now.len() implies (#[trigger] now[k]).1.wf() by {
                if !replaced && k > i {
                    assert(now[k] == before[k - 1]);
                }
            }
            assert(now[i as int] == (xpath, field));
            assert(self.wf());
            self.lemma_field_at(i as int);
            assert forall|x: XPathId| x != xpath implies #[trigger] self.field_of(x) == old(self).field_of(x) by {
                if exists|k: int| 0 <= k < before.len() && before[k].0 == x {
                    let k = choose|k: int| 0 <= k < before.len() && before[k].0 == x;
                    let k2: int = if !replaced && k >= i { k + 1 } else { k };
                    assert(now[k2] == before[k]);
                    old(self).lemma_field_at(k);
                    self.lemma_field_at(k2);
                } else {
                    if exists|k: int| 0 <= k < now.len() && now[k].0 == x {
                        let k = choose|k: int| 0 <= k < now.len() && now[k].0 == x;
                        assert(k != i);
                        let k0: int = if !replaced && k > i { k - 1 } else { k };
                        assert(before[k0] == now[k]);
                    }
                }
            }
        }
    }

    /// Each field with its path, in order of path.
    pub fn iter(&self) -> (r: Vec<(XPathId, &NumericField)>)
        ensures
            r@.len() == self.field_seq().len(),
            forall|i: int| 0 <= i < r@.len() ==> r@[i].0 == self.field_seq()[i].0 && *r@[i].1 == self.field_seq()[i].1,
    {
        let mut out: Vec<(XPathId, &NumericField)> = Vec::new();
        let mut i: usize = 0;
        while i < self.fields.len()
            invariant
                i <= self.fields@.len(),
                out@.len() == i,
                forall|k: int| 0 <= k < i ==> out@[k].0 == self.fields@[k].0 && *out@[k].1 == self.fields@[k].1,
            decreases self.fields@.len() - i,
        {
            out.push((self.fields[i].0, &self.fields[i].1));
            i += 1;
        }
        out
    }

    /// How many points the fields hold together.
    pub fn len(&self) -> (r: usize)
        requires
            total_points(self.field_seq()) <= usize::MAX,
        ensures
            r == total_points(self.field_seq()),
    {
        let mut total: usize = 0;
        let mut i: usize = 0;
        while i < self.fields.len()
            invariant
                i <= self.fields@.len(),
                total == total_points(self.fields@.subrange(0, i as int)),
                total_points(self.fields@) <= usize::MAX,
            decreases self.fields@.len() - i,
        {
            proof {
                assert(self.fields@.subrange(0, i + 1).drop_last() =~= self.fields@.subrange(0, i as int));
                lemma_total_points_prefix(self.fields@, i + 1);
            }
            total = total + self.fields[i].1.bkd.len();
            i += 1;
        }
        assert(self.fields@.subrange(0, self.fields@.len() as int) =~= self.fields@);
        total
    }

    /// Whether no field holds a point.
    pub fn is_empty(&self) -> (r: bool)
        ensures
            r == forall|i: int| 0 <= i < self.field_seq().len() ==> #[trigger] self.field_seq()[i].1.bkd.point_seq().len() == 0,
    {
        let mut i: usize = 0;
        while i < self.fields.len()
            invariant
                i <= self.fields@.len(),
                forall|k: int| 0 <= k < i ==> #[trigger] self.field_seq()[k].1.bkd.point_seq().len() == 0,
            decreases self.fields@.len() - i,
        {
            if !self.fields[i].1.bkd.is_empty() {
                assert(self.field_seq()[i as int].1.bkd.point_seq().len() != 0);
                return false;
            }
            i += 1;
        }
        true
    }

    /// The documents whose value of field `xpath` lies within the bounds, each once, in
    /// increasing order; none where there is no such field.
    pub fn range_packed(&self, xpath: XPathId, lo: Option<PackedBound>, hi: Option<PackedBound>) -> (r: Vec<DocId>)
        requires
            self.wf(),
        ensures
            strictly_increasing(r@),
            match self.field_of(xpath) {
                Some(f) => r@.to_set() == crate::numeric::bkd::docs_within(f.bkd.point_seq(), lo, hi),
                None => r@.len() == 0,
            },
    {
        match self.field(xpath) {
            Some(f) => f.bkd.range_packed(lo, hi),
            None => Vec::new(),
        }
    }

    /// The packed value of `doc_id` in field `xpath`, if it has one.
    pub fn get_packed(&self, xpath: XPathId, doc_id: DocId) -> (r: Option<u64>)
        requires
            self.wf(),
        ensures
            self.field_of(xpath) is None ==> r is None,
            self.field_of(xpath) is Some ==> (r is None <==> !exists|i: int|
                0 <= i < self.field_of(xpath)->0.doc_values.entry_seq().len()
                    && self.field_of(xpath)->0.doc_values.entry_seq()[i].0 == doc_id),
            r is Some && self.field_of(xpath) is Some ==> exists|i: int|
                0 <= i < self.field_of(xpath)->0.doc_values.entry_seq().len()
                    && self.field_of(xpath)->0.doc_values.entry_seq()[i] == (doc_id, r->0),
    {
        match self.field(xpath) {
            Some(f) => {
                let r = f.doc_values.get_packed(doc_id);
                proof {
                    let es = self.field_of(xpath)->0.doc_values.entry_seq();
                    assert(es == f.doc_values.entry_seq());
                    if r is None {
                        assert forall|i: int| 0 <= i < es.len() implies es[i].0 != doc_id by {
                            assert(f.doc_values.entry_seq()[i] == es[i]);
                        }
                    }
                }
                r
            },
            None => None,
        }
    }

    /// Every document with its packed value in field `xpath`, ordered by document.
    pub fn values_packed(&self, xpath: XPathId) -> (r: Vec<(DocId, u64)>)
        requires
            self.wf(),
        ensures
            match self.field_of(xpath) {
                Some(f) => r@ == f.doc_values.entry_seq(),
                None => r@.len() == 0,
            },
    {
        match self.field(xpath) {
            Some(f) => {
                let entries = f.doc_values.entries();
                let mut out: Vec<(DocId, u64)> = Vec::new();
                let mut i: usize = 0;
                while i < entries.len()
                    invariant
                        i <= entries@.len(),
                        out@ == entries@.subrange(0, i as int),
                    decreases entries@.len() - i,
                {
                    out.push(entries[i]);
                    proof {
                        assert(out@ =~= entries@.subrange(0, i + 1));
                    }
                    i += 1;
                }
                assert(entries@.subrange(0, entries@.len() as int) =~= entries@);
                out
            },
            None => Vec::new(),
        }
    }
}

/// A prefix of the fields holds no more points than all of them.
pub proof fn lemma_total_points_prefix(fields: Seq<(XPathId, NumericField)>, k: int)
    requires
        0 <= k <= fields.len(),
    ensures
        total_points(fields.subrange(0, k)) <= total_points(fields),
    decreases fields.len(),
{
    if k == fields.len() {
        assert(fields.subrange(0, k) =~= fields);
    } else {
        lemma_total_points_prefix(fields.drop_last(), k);
        assert(fields.drop_last().subrange(0, k) =~= fields.subrange(0, k));
    }
}

} // verus!
