//! The numbers of the documents held in memory, per field path and ordered by value, so that a
//! range of values is one stretch of a column; and the numeric filters that select such ranges.

use vstd::prelude::*;

use crate::filter::{split_filter, filter_shape, FilterOp, FilterShape, ShapeV};
use crate::numeric::points::{lemma_value_order, value_less, value_within, NumericValue, NumericBound};
use crate::sorting::{sorted_unique, strictly_increasing};
use crate::text::{chars_of, parse_i64, parse_i64_spec, push_text, trim_chars, trimmed};
use crate::types::{DocId, XPathId};

verus! {

broadcast use vstd::string::group_string_axioms;

/// The integer written in `raw`, white space around it allowed; `None` where `raw` holds no
/// `i64`.
pub fn parse_integer(raw: &str) -> (r: Option<NumericValue>)
    ensures
        r == (match parse_i64_spec(trimmed(raw@)) {
            Some(v) => Some(NumericValue::Int(v)),
            None => None,
        }),
{
    let chars = chars_of(raw);
    let t = trim_chars(chars.as_slice());
    match parse_i64(t.as_slice()) {
        Some(v) => Some(NumericValue::Int(v)),
        None => None,
    }
}

/// A range of numbers; a missing end is open.
#[derive(Debug, Clone, Copy, PartialEq, Eq, Structural)]
pub struct NumericRange {
    pub lo: Option<NumericBound>,
    pub hi: Option<NumericBound>,
}

/// An inclusive bound at `v`.
pub open spec fn closed_at(v: NumericValue) -> Option<NumericBound> {
    Some(NumericBound { value: v, inclusive: true })
}

/// The range of a filter cut as `shape`, `first` being its (first) number and `second` its
/// upper number, `None` where a number could not be read.
pub open spec fn value_range_spec(shape: ShapeV, first: Option<NumericValue>, second: Option<NumericValue>) -> Result<
    NumericRange,
    Seq<char>,
> {
    match shape {
        ShapeV::Between(l, r) => match first {
            None => Err("invalid lower bound '"@ + l + "'"@),
            Some(a) => match second {
                None => Err("invalid upper bound '"@ + r + "'"@),
                Some(b) => if value_less(b, a) {
                    Err("empty range: lower '"@ + l + "' is greater than upper '"@ + r + "'"@)
                } else {
                    Ok(NumericRange { lo: closed_at(a), hi: closed_at(b) })
                },
            },
        },
        ShapeV::Single(op, rest) => match first {
            None => Err("invalid number '"@ + rest + "'"@),
            Some(v) => Ok(
                match op {
                    FilterOp::Ge => NumericRange { lo: closed_at(v), hi: None },
                    FilterOp::Gt => NumericRange { lo: Some(NumericBound { value: v, inclusive: false }), hi: None },
                    FilterOp::Le => NumericRange { lo: None, hi: closed_at(v) },
                    FilterOp::Lt => NumericRange { lo: None, hi: Some(NumericBound { value: v, inclusive: false }) },
                    _ => NumericRange { lo: closed_at(v), hi: closed_at(v) },
                },
            ),
        },
    }
}

/// A result with its message as text.
pub open spec fn range_result(r: Result<NumericRange, String>) -> Result<NumericRange, Seq<char>> {
    match r {
        Ok(v) => Ok(v),
        Err(e) => Err(e@),
    }
}

/// `a`, then `b`, then `c`.
fn join3(a: &str, b: &str, c: &str) -> (r: String)
    ensures
        r@ == a@ + b@ + c@,
{
    let mut s = String::new();
    push_text(&mut s, a);
    push_text(&mut s, b);
    push_text(&mut s, c);
    s
}

/// The range of a filter cut as `shape`, from the numbers read from it, as `value_range_spec`
/// says.
pub fn value_range_from(shape: &FilterShape, first: Option<NumericValue>, second: Option<NumericValue>) -> (r: Result<
    NumericRange,
    String,
>)
    ensures
        range_result(r) == value_range_spec(shape@, first, second),
{
    match shape {
        FilterShape::Between(l, rt) => {
            let a = match first {
                Some(a) => a,
                None => {
                    return Err(join3("invalid lower bound '", l.as_str(), "'"));
                },
            };
            let b = match second {
                Some(b) => b,
                None => {
                    return Err(join3("invalid upper bound '", rt.as_str(), "'"));
                },
            };
            let lo = NumericBound { value: a, inclusive: true };
            if lo.below_lo(b) {
                let mut e = join3("empty range: lower '", l.as_str(), "' is greater than upper '");
                push_text(&mut e, rt.as_str());
                push_text(&mut e, "'");
                return Err(e);
            }
            Ok(NumericRange { lo: Some(lo), hi: Some(NumericBound { value: b, inclusive: true }) })
        },
        FilterShape::Single(op, rest) => {
            let v = match first {
                Some(v) => v,
                None => {
                    return Err(join3("invalid number '", rest.as_str(), "'"));
                },
            };
            let range = match op {
                FilterOp::Ge => NumericRange { lo: Some(NumericBound { value: v, inclusive: true }), hi: None },
                FilterOp::Gt => NumericRange { lo: Some(NumericBound { value: v, inclusive: false }), hi: None },
                FilterOp::Le => NumericRange { lo: None, hi: Some(NumericBound { value: v, inclusive: true }) },
                FilterOp::Lt => NumericRange { lo: None, hi: Some(NumericBound { value: v, inclusive: false }) },
                _ => {
                    let b = NumericBound { value: v, inclusive: true };
                    NumericRange { lo: Some(b), hi: Some(b) }
                },
            };
            Ok(range)
        },
    }
}

/// Whether `first` and `second` are what `parse` may give for the numbers of `shape`: the upper
/// number is read only once the lower one was.
pub open spec fn parsed<F: Fn(&str) -> Option<NumericValue>>(
    parse: F,
    shape: ShapeV,
    first: Option<NumericValue>,
    second: Option<NumericValue>,
) -> bool {
    match shape {
        ShapeV::Between(l, r) => {
            &&& exists|x: &str| x@ == l && #[trigger] parse.ensures((x,), first)
            &&& first is Some ==> exists|y: &str| y@ == r && #[trigger] parse.ensures((y,), second)
            &&& first is None ==> second is None
        },
        ShapeV::Single(_, t) => {
            &&& exists|x: &str| x@ == t && #[trigger] parse.ensures((x,), first)
            &&& second is None
        },
    }
}

/// Parses the numeric filter `raw`, reading its numbers with `parse` (the reader of the
/// field's kind of number): the parts as `filter_shape` cuts them, and the range that
/// `value_range_spec` builds from what `parse` gave for them.
pub fn parse_numeric_range<F: Fn(&str) -> Option<NumericValue>>(raw: &str, parse: F) -> (r: Result<NumericRange, String>)
    requires
        forall|x: &str| #[trigger] parse.requires((x,)),
    ensures
        filter_shape(raw@) matches Err(m) ==> (r matches Err(e) && e@ == m),
        filter_shape(raw@) matches Ok(shape) ==> exists|first: Option<NumericValue>, second: Option<NumericValue>|
            #[trigger] parsed(parse, shape, first, second) && range_result(r) == value_range_spec(shape, first, second),
{
    let shape = match split_filter(raw) {
        Ok(shape) => shape,
        Err(e) => {
            return Err(e);
        },
    };
    let (first, second) = match &shape {
        FilterShape::Between(l, rt) => {
            let a = parse(l.as_str());
            let b = match &a {
                Some(_) => parse(rt.as_str()),
                None => None,
            };
            (a, b)
        },
        FilterShape::Single(_, t) => (parse(t.as_str()), None),
    };
    let ghost f = first;
    let ghost g = second;
    let r = value_range_from(&shape, first, second);
    assert(parsed(parse, shape@, f, g));
    r
}

/// Groups of documents by value: ordered by value, each group's documents strictly
/// increasing and never empty.
pub open spec fn groups_wf(g: Seq<(NumericValue, Seq<DocId>)>) -> bool {
    &&& forall|i: int, j: int| 0 <= i < j < g.len() ==> value_less(#[trigger] g[i].0, #[trigger] g[j].0)
    &&& forall|i: int| 0 <= i < g.len() ==> (#[trigger] g[i].1).len() > 0 && strictly_increasing(g[i].1)
}

/// Whether the group `i` of `g` holds the value `v` and the document `d`.
pub open spec fn group_holds(g: Seq<(NumericValue, Seq<DocId>)>, i: int, v: NumericValue, d: DocId) -> bool {
    0 <= i < g.len() && g[i].0 == v && g[i].1.contains(d)
}

/// The pairs of value and document that the groups hold.
pub open spec fn column_pairs(g: Seq<(NumericValue, Seq<DocId>)>) -> Set<(NumericValue, DocId)> {
    Set::new(|p: (NumericValue, DocId)| exists|i: int| #[trigger] group_holds(g, i, p.0, p.1))
}

/// The documents that the groups hold with a value within the bounds.
pub open spec fn docs_in_range(g: Seq<(NumericValue, Seq<DocId>)>, lo: Option<NumericBound>, hi: Option<NumericBound>) -> Set<
    DocId,
> {
    Set::new(|d: DocId| exists|v: NumericValue| value_within(v, lo, hi) && #[trigger] column_pairs(g).contains((v, d)))
}

/// The documents of the groups whose value lies within the bounds, group after group.
pub open spec fn range_docs(g: Seq<(NumericValue, Seq<DocId>)>, lo: Option<NumericBound>, hi: Option<NumericBound>) -> Seq<
    DocId,
>
    decreases g.len(),
{
    if g.len() == 0 {
        Seq::empty()
    } else {
        range_docs(g.drop_last(), lo, hi) + if value_within(g.last().0, lo, hi) {
            g.last().1
        } else {
            Seq::empty()
        }
    }
}

/// The pairs of value and document of the groups, group after group.
pub open spec fn group_entries(g: Seq<(NumericValue, Seq<DocId>)>) -> Seq<(NumericValue, DocId)>
    decreases g.len(),
{
    if g.len() == 0 {
        Seq::empty()
    } else {
        group_entries(g.drop_last()) + g.last().1.map_values(|d: DocId| (g.last().0, d))
    }
}

/// How many documents the groups hold together.
pub open spec fn group_total(g: Seq<(NumericValue, Seq<DocId>)>) -> nat
    decreases g.len(),
{
    if g.len() == 0 {
        0
    } else {
        group_total(g.drop_last()) + g.last().1.len()
    }
}

/// The values of one field path, each with the documents that hold it.
#[derive(Debug, Clone)]
pub struct NumericColumn {
    by_value: Vec<(NumericValue, Vec<DocId>)>,
}

impl NumericColumn {
    /// The groups of documents, by value.
    pub closed spec fn groups(&self) -> Seq<(NumericValue, Seq<DocId>)> {
        self.by_value@.map_values(|e: (NumericValue, Vec<DocId>)| (e.0, e.1@))
    }

    /// The groups are well formed.
    pub open spec fn wf(&self) -> bool {
        groups_wf(self.groups())
    }

    /// An empty column.
    pub fn new() -> (r: Self)
        ensures
            r.wf(),
            r.groups().len() == 0,
    {
        let r = NumericColumn { by_value: Vec::new() };
        assert(r.groups() =~= Seq::empty());
        r
    }

    /// Where the group of `value` is, or would be put: the first group whose value does not
    /// come before `value`.
    fn value_position(&self, value: NumericValue) -> (k: usize)
        requires
            self.wf(),
        ensures
            k <= self.groups().len(),
            forall|i: int| 0 <= i < k ==> value_less(#[trigger] self.groups()[i].0, value),
            forall|i: int| k <= i < self.groups().len() ==> !value_less(#[trigger] self.groups()[i].0, value),
    {
        let ghost g = self.groups();
        let mut lo: usize = 0;
        let mut hi: usize = self.by_value.len();
        while lo < hi
            invariant
                g == self.groups(),
                groups_wf(g),
                g.len() == self.by_value@.len(),
                lo <= hi <= g.len(),
                forall|i: int| 0 <= i < lo ==> value_less(#[trigger] g[i].0, value),
                forall|i: int| hi <= i < g.len() ==> !value_less(#[trigger] g[i].0, value),
            decreases hi - lo,
        {
            let mid = lo + (hi - lo) / 2;
            let v = self.by_value[mid].0;
            assert(v == g[mid as int].0);
            let before = NumericBound { value: value, inclusive: true }.below_lo(v);
            if before {
                proof {
                    assert forall|i: int| 0 <= i <= mid implies value_less(#[trigger] g[i].0, value) by {
                        if i < mid {
                            assert(value_less(g[i].0, g[mid as int].0));
                            lemma_value_order(g[i].0, v, value);
                        }
                    }
                }
                lo = mid + 1;
            } else {
                proof {
                    assert forall|i: int| mid <= i < g.len() implies !value_less(#[trigger] g[i].0, value) by {
                        if i > mid {
                            assert(value_less(g[mid as int].0, g[i].0));
                            lemma_value_order(v, g[i].0, value);
                            lemma_value_order(g[i].0, value, v);
                        }
                    }
                }
                hi = mid;
            }
        }
        lo
    }
    /// Adds the document `doc_id` to the group of `value`, making the group where there is
    /// none; a document already there stays once.
    pub fn insert(&mut self, value: NumericValue, doc_id: DocId)
        requires
            old(self).wf(),
        ensures
            final(self).wf(),
            column_pairs(final(self).groups()) == column_pairs(old(self).groups()).insert((value, doc_id)),
    {
        let ghost g = self.groups();
        let k = self.value_position(value);
        if k < self.by_value.len() && self.by_value[k].0 == value {
            assert(g[k as int].1 == self.by_value@[k as int].1@);
            let j = doc_position(&self.by_value[k].1, doc_id);
            if j < self.by_value[k].1.len() && self.by_value[k].1[j] == doc_id {
                proof {
                    assert(g[k as int].1[j as int] == doc_id);
                    lemma_pair_held(g, k as int, value, doc_id);
                }
                return;
            }
            let ghost docs = g[k as int].1;
            self.by_value[k].1.insert(j, doc_id);
            proof {
                let nd = docs.insert(j as int, doc_id);
                assert(self.groups() =~= g.update(k as int, (value, nd)));
                lemma_insert_increasing(docs, j as int, doc_id);
                lemma_pairs_after_doc_insert(g, k as int, j as int, doc_id);
            }
        } else {
            let mut docs: Vec<DocId> = Vec::new();
            docs.push(doc_id);
            self.by_value.insert(k, (value, docs));
            proof {
                assert(self.groups() =~= g.insert(k as int, (value, seq![doc_id])));
                lemma_group_insert(g, k as int, value, doc_id);
            }
        }
    }
}


impl NumericColumn {
    /// The documents whose value lies within the bounds, in increasing order and each once.
    pub fn range(&self, lo: Option<NumericBound>, hi: Option<NumericBound>) -> (r: Vec<DocId>)
        requires
            self.wf(),
        ensures
            strictly_increasing(r@),
            r@.to_set() == docs_in_range(self.groups(), lo, hi),
    {
        let all = self.docs_by_value(lo, hi);
        let r = sorted_unique(all.as_slice());
        proof {
            let g = self.groups();
            assert forall|d: DocId| #[trigger] all@.to_set().contains(d) <==> docs_in_range(g, lo, hi).contains(d) by {
                lemma_range_members(g, lo, hi, d);
            }
            assert(all@.to_set() =~= docs_in_range(g, lo, hi));
        }
        r
    }

    /// The documents whose value lies within the bounds: group after group in the order of
    /// values, each group's documents in increasing order.
    fn docs_by_value(&self, lo: Option<NumericBound>, hi: Option<NumericBound>) -> (r: Vec<DocId>)
        requires
            self.wf(),
        ensures
            r@ == range_docs(self.groups(), lo, hi),
    {
        let ghost g = self.groups();
        let mut out: Vec<DocId> = Vec::new();
        let mut i: usize = 0;
        proof {
            assert(g.take(0) =~= Seq::<(NumericValue, Seq<DocId>)>::empty());
            assert(g.take(g.len() as int) =~= g);
        }
        while i < self.by_value.len()
            invariant
                g == self.groups(),
                groups_wf(g),
                g.len() == self.by_value@.len(),
                g.take(g.len() as int) == g,
                i <= g.len(),
                out@ == range_docs(g.take(i as int), lo, hi),
            ensures
                out@ == range_docs(g, lo, hi),
            decreases g.len() - i,
        {
            let v = self.by_value[i].0;
            assert(v == g[i as int].0);
            proof {
                lemma_range_docs_step(g, i as int, lo, hi);
            }
            let skip = match lo {
                Some(b) => b.below_lo(v),
                None => false,
            };
            if skip {
                proof {
                    lemma_value_order(v, lo.unwrap().value, v);
                }
                i += 1;
                continue;
            }
            let stop = match hi {
                Some(b) => b.past_hi(v),
                None => false,
            };
            if stop {
                proof {
                    lemma_range_rest(g, i as int, lo, hi, g.len() as int);
                    assert(g.take(g.len() as int) =~= g);
                }
                break;
            }
            proof {
                if let Some(b) = lo {
                    lemma_value_order(v, b.value, v);
                }
                if let Some(b) = hi {
                    lemma_value_order(v, b.value, v);
                }
                assert(value_within(v, lo, hi));
            }
            let docs = &self.by_value[i].1;
            let ghost base = out@;
            let mut j: usize = 0;
            while j < docs.len()
                invariant
                    j <= docs@.len(),
                    out@ == base + docs@.take(j as int),
                decreases docs@.len() - j,
            {
                out.push(docs[j]);
                proof {
                    assert(docs@.take(j + 1) =~= docs@.take(j as int).push(docs@[j as int]));
                }
                j += 1;
            }
            proof {
                assert(docs@.take(docs@.len() as int) =~= docs@);
                assert(docs@ == g[i as int].1);
            }
            i += 1;
        }
        proof {
            if i == g.len() {
                assert(g.take(g.len() as int) =~= g);
            }
        }
        out
    }

    /// Every pair of value and document: in the order of values, and of documents within a
    /// value.
    pub fn entries(&self) -> (r: Vec<(NumericValue, DocId)>)
        ensures
            r@ == group_entries(self.groups()),
    {
        let ghost g = self.groups();
        let mut out: Vec<(NumericValue, DocId)> = Vec::new();
        let mut i: usize = 0;
        proof {
            assert(g.take(0) =~= Seq::<(NumericValue, Seq<DocId>)>::empty());
        }
        while i < self.by_value.len()
            invariant
                g == self.groups(),
                g.len() == self.by_value@.len(),
                i <= g.len(),
                out@ == group_entries(g.take(i as int)),
            decreases g.len() - i,
        {
            let v = self.by_value[i].0;
            let docs = &self.by_value[i].1;
            let ghost base = out@;
            let mut j: usize = 0;
            while j < docs.len()
                invariant
                    j <= docs@.len(),
                    out@ == base + docs@.take(j as int).map_values(|d: DocId| (v, d)),
                decreases docs@.len() - j,
            {
                out.push((v, docs[j]));
                proof {
                    assert(docs@.take(j + 1).map_values(|d: DocId| (v, d)) =~= docs@.take(j as int).map_values(
                        |d: DocId| (v, d),
                    ).push((v, docs@[j as int])));
                }
                j += 1;
            }
            proof {
                assert(docs@.take(docs@.len() as int) =~= docs@);
                assert(g.take(i + 1).drop_last() =~= g.take(i as int));
                assert(g.take(i + 1).last() == (v, docs@));
            }
            i += 1;
        }
        proof {
            assert(g.take(g.len() as int) =~= g);
        }
        out
    }

    /// How many documents the column holds, counted once per value.
    pub fn len(&self) -> (r: usize)
        requires
            group_total(self.groups()) <= usize::MAX,
        ensures
            r == group_total(self.groups()),
    {
        let ghost g = self.groups();
        let mut total: usize = 0;
        let mut i: usize = 0;
        proof {
            assert(g.take(0) =~= Seq::<(NumericValue, Seq<DocId>)>::empty());
        }
        while i < self.by_value.len()
            invariant
                g == self.groups(),
                g.len() == self.by_value@.len(),
                group_total(g) <= usize::MAX,
                i <= g.len(),
                total == group_total(g.take(i as int)),
            decreases g.len() - i,
        {
            proof {
                assert(g.take(i + 1).drop_last() =~= g.take(i as int));
                lemma_group_total_prefix(g, i + 1);
            }
            total = total + self.by_value[i].1.len();
            i += 1;
        }
        proof {
            assert(g.take(g.len() as int) =~= g);
        }
        total
    }

    /// Whether the column holds no value.
    pub fn is_empty(&self) -> (r: bool)
        requires
            self.wf(),
        ensures
            r == (self.groups().len() == 0),
            r == (column_pairs(self.groups()) == Set::<(NumericValue, DocId)>::empty()),
    {
        let r = self.by_value.len() == 0;
        proof {
            let g = self.groups();
            if r {
                assert(column_pairs(g) =~= Set::<(NumericValue, DocId)>::empty());
            } else {
                let d = g[0].1[0];
                lemma_pair_held(g, 0, g[0].0, d);
            }
        }
        r
    }
}

/// One more group adds its documents to the range where its value lies within the bounds.
proof fn lemma_range_docs_step(g: Seq<(NumericValue, Seq<DocId>)>, i: int, lo: Option<NumericBound>, hi: Option<NumericBound>)
    requires
        0 <= i < g.len(),
    ensures
        range_docs(g.take(i + 1), lo, hi) == range_docs(g.take(i), lo, hi) + if value_within(g[i].0, lo, hi) {
            g[i].1
        } else {
            Seq::empty()
        },
{
    assert(g.take(i + 1).drop_last() =~= g.take(i));
    assert(g.take(i + 1).last() == g[i]);
}

/// Past a group beyond the upper bound, no group adds to the range.
proof fn lemma_range_rest(g: Seq<(NumericValue, Seq<DocId>)>, i: int, lo: Option<NumericBound>, hi: Option<NumericBound>, n: int)
    requires
        groups_wf(g),
        0 <= i < g.len(),
        i <= n <= g.len(),
        hi matches Some(b) && (value_less(b.value, g[i].0) || (g[i].0 == b.value && !b.inclusive)),
    ensures
        range_docs(g.take(n), lo, hi) == range_docs(g.take(i), lo, hi),
    decreases n - i,
{
    if n > i {
        lemma_range_rest(g, i, lo, hi, n - 1);
        lemma_range_docs_step(g, n - 1, lo, hi);
        let b = hi.unwrap();
        let v = g[n - 1].0;
        if n - 1 > i {
            assert(value_less(g[i].0, v));
        }
        lemma_value_order(b.value, g[i].0, v);
        lemma_value_order(v, b.value, g[i].0);
        assert(!value_within(v, lo, hi));
        assert(range_docs(g.take(n), lo, hi) =~= range_docs(g.take(n - 1), lo, hi));
    }
}

/// The total of a prefix grows by the next group's documents.
proof fn lemma_group_total_prefix(g: Seq<(NumericValue, Seq<DocId>)>, i: int)
    requires
        0 < i <= g.len(),
    ensures
        group_total(g.take(i)) == group_total(g.take(i - 1)) + g[i - 1].1.len(),
        group_total(g.take(i)) <= group_total(g),
    decreases g.len() - i,
{
    assert(g.take(i).drop_last() =~= g.take(i - 1));
    if i < g.len() {
        lemma_group_total_prefix(g, i + 1);
    } else {
        assert(g.take(i) =~= g);
    }
}

/// A pair that a group holds is one of the column's pairs, and adding it changes nothing.
proof fn lemma_pair_held(g: Seq<(NumericValue, Seq<DocId>)>, k: int, v: NumericValue, d: DocId)
    requires
        group_holds(g, k, v, d),
    ensures
        column_pairs(g).contains((v, d)),
        column_pairs(g).insert((v, d)) == column_pairs(g),
{
    let p = (v, d);
    assert(group_holds(g, k, p.0, p.1));
    assert(column_pairs(g).insert(p) =~= column_pairs(g));
}

/// Where `d` is, or would be put, in the strictly increasing `docs`.
fn doc_position(docs: &Vec<DocId>, d: DocId) -> (k: usize)
    requires
        strictly_increasing(docs@),
    ensures
        k <= docs@.len(),
        forall|i: int| 0 <= i < k ==> #[trigger] docs@[i] < d,
        forall|i: int| k <= i < docs@.len() ==> #[trigger] docs@[i] >= d,
{
    let mut lo: usize = 0;
    let mut hi: usize = docs.len();
    while lo < hi
        invariant
            strictly_increasing(docs@),
            lo <= hi <= docs@.len(),
            forall|i: int| 0 <= i < lo ==> #[trigger] docs@[i] < d,
            forall|i: int| hi <= i < docs@.len() ==> #[trigger] docs@[i] >= d,
        decreases hi - lo,
    {
        let mid = lo + (hi - lo) / 2;
        if docs[mid] < d {
            assert forall|i: int| 0 <= i <= mid implies #[trigger] docs@[i] < d by {
                if i < mid {
                    assert(docs@[i] < docs@[mid as int]);
                }
            }
            lo = mid + 1;
        } else {
            assert forall|i: int| mid <= i < docs@.len() implies #[trigger] docs@[i] >= d by {
                if i > mid {
                    assert(docs@[mid as int] < docs@[i]);
                }
            }
            hi = mid;
        }
    }
    lo
}

/// Putting `d` into a strictly increasing list where it belongs keeps it strictly increasing.
proof fn lemma_insert_increasing(docs: Seq<DocId>, j: int, d: DocId)
    requires
        strictly_increasing(docs),
        0 <= j <= docs.len(),
        forall|i: int| 0 <= i < j ==> #[trigger] docs[i] < d,
        forall|i: int| j <= i < docs.len() ==> #[trigger] docs[i] > d,
    ensures
        strictly_increasing(docs.insert(j, d)),
        docs.insert(j, d).len() > 0,
{
    let n = docs.insert(j, d);
    assert forall|a: int, b: int| 0 <= a < b < n.len() implies n[a] < n[b] by {
        if b < j {
            assert(n[a] == docs[a] && n[b] == docs[b]);
        } else if b == j {
            assert(n[a] == docs[a]);
        } else if a == j {
            assert(n[b] == docs[b - 1]);
        } else if a < j {
            assert(n[a] == docs[a] && n[b] == docs[b - 1]);
        } else {
            assert(n[a] == docs[a - 1] && n[b] == docs[b - 1]);
        }
    }
}

/// Adding `d` to the group `k` adds its pair and keeps the groups well formed.
proof fn lemma_pairs_after_doc_insert(g: Seq<(NumericValue, Seq<DocId>)>, k: int, j: int, d: DocId)
    requires
        groups_wf(g),
        0 <= k < g.len(),
        0 <= j <= g[k].1.len(),
        strictly_increasing(g[k].1.insert(j, d)),
    ensures
        groups_wf(g.update(k, (g[k].0, g[k].1.insert(j, d)))),
        column_pairs(g.update(k, (g[k].0, g[k].1.insert(j, d)))) == column_pairs(g).insert((g[k].0, d)),
{
    let v = g[k].0;
    let nd = g[k].1.insert(j, d);
    let ng = g.update(k, (v, nd));
    assert(nd[j] == d);
    assert forall|i: int, m: int| 0 <= i < m < ng.len() implies value_less(#[trigger] ng[i].0, #[trigger] ng[m].0) by {
        assert(value_less(g[i].0, g[m].0));
    }
    assert forall|i: int| 0 <= i < ng.len() implies (#[trigger] ng[i].1).len() > 0 && strictly_increasing(ng[i].1) by {
        if i != k {
            assert(g[i].1.len() > 0);
        }
    }
    assert forall|p: (NumericValue, DocId)| column_pairs(ng).contains(p) <==> column_pairs(g).insert((v, d)).contains(p) by {
        if column_pairs(ng).contains(p) {
            let i = choose|i: int| #[trigger] group_holds(ng, i, p.0, p.1);
            if i == k {
                let x = choose|x: int| 0 <= x < nd.len() && nd[x] == p.1;
                if x < j {
                    assert(g[k].1[x] == p.1);
                    assert(group_holds(g, k, p.0, p.1));
                } else if x > j {
                    assert(g[k].1[x - 1] == p.1);
                    assert(group_holds(g, k, p.0, p.1));
                }
            } else {
                assert(group_holds(g, i, p.0, p.1));
            }
        }
        if column_pairs(g).insert((v, d)).contains(p) {
            if p == (v, d) {
                assert(group_holds(ng, k, p.0, p.1));
            } else {
                let i = choose|i: int| #[trigger] group_holds(g, i, p.0, p.1);
                if i == k {
                    let x = choose|x: int| 0 <= x < g[k].1.len() && g[k].1[x] == p.1;
                    if x < j {
                        assert(nd[x] == p.1);
                    } else {
                        assert(nd[x + 1] == p.1);
                    }
                }
                assert(group_holds(ng, i, p.0, p.1));
            }
        }
    }
    assert(column_pairs(ng) =~= column_pairs(g).insert((v, d)));
}

/// A new group for `value`, put where it belongs, adds its pair and keeps the groups well
/// formed.
proof fn lemma_group_insert(g: Seq<(NumericValue, Seq<DocId>)>, k: int, value: NumericValue, d: DocId)
    requires
        groups_wf(g),
        0 <= k <= g.len(),
        forall|i: int| 0 <= i < k ==> value_less(#[trigger] g[i].0, value),
        forall|i: int| k <= i < g.len() ==> !value_less(#[trigger] g[i].0, value),
        k < g.len() ==> g[k].0 != value,
    ensures
        groups_wf(g.insert(k, (value, seq![d]))),
        column_pairs(g.insert(k, (value, seq![d]))) == column_pairs(g).insert((value, d)),
{
    let ng = g.insert(k, (value, seq![d]));
    assert forall|m: int| k <= m < g.len() implies value_less(value, #[trigger] g[m].0) by {
        lemma_value_order(g[k].0, value, g[m].0);
        if m > k {
            assert(value_less(g[k].0, g[m].0));
            lemma_value_order(value, g[k].0, g[m].0);
        }
    }
    assert forall|i: int, m: int| 0 <= i < m < ng.len() implies value_less(#[trigger] ng[i].0, #[trigger] ng[m].0) by {
        if m < k {
            assert(value_less(g[i].0, g[m].0));
        } else if m == k {
            assert(value_less(g[i].0, value));
        } else if i == k {
            assert(ng[m] == g[m - 1]);
        } else if i < k {
            assert(value_less(g[i].0, g[m - 1].0));
        } else {
            assert(value_less(g[i - 1].0, g[m - 1].0));
        }
    }
    assert forall|i: int| 0 <= i < ng.len() implies (#[trigger] ng[i].1).len() > 0 && strictly_increasing(ng[i].1) by {
        if i < k {
            assert(g[i].1.len() > 0);
        } else if i > k {
            assert(ng[i] == g[i - 1]);
            assert(g[i - 1].1.len() > 0);
        }
    }
    assert forall|p: (NumericValue, DocId)| column_pairs(ng).contains(p) <==> column_pairs(g).insert((value, d)).contains(p) by {
        if column_pairs(ng).contains(p) {
            let i = choose|i: int| #[trigger] group_holds(ng, i, p.0, p.1);
            if i < k {
                assert(group_holds(g, i, p.0, p.1));
            } else if i > k {
                assert(group_holds(g, i - 1, p.0, p.1));
            } else {
                assert(seq![d][0] == d);
                assert(p.1 == d);
            }
        }
        if column_pairs(g).insert((value, d)).contains(p) {
            if p == (value, d) {
                assert(seq![d][0] == d);
                assert(group_holds(ng, k, p.0, p.1));
            } else {
                let i = choose|i: int| #[trigger] group_holds(g, i, p.0, p.1);
                if i < k {
                    assert(group_holds(ng, i, p.0, p.1));
                } else {
                    assert(ng[i + 1] == g[i]);
                    assert(group_holds(ng, i + 1, p.0, p.1));
                }
            }
        }
    }
    assert(column_pairs(ng) =~= column_pairs(g).insert((value, d)));
}

/// A document is in the range exactly when the column holds it with a value within the
/// bounds.
pub proof fn lemma_range_members(g: Seq<(NumericValue, Seq<DocId>)>, lo: Option<NumericBound>, hi: Option<NumericBound>, d: DocId)
    ensures
        range_docs(g, lo, hi).contains(d) <==> exists|v: NumericValue| value_within(v, lo, hi) && #[trigger] column_pairs(
            g,
        ).contains((v, d)),
    decreases g.len(),
{
    if g.len() == 0 {
        if exists|v: NumericValue| value_within(v, lo, hi) && #[trigger] column_pairs(g).contains((v, d)) {
            let v = choose|v: NumericValue| value_within(v, lo, hi) && #[trigger] column_pairs(g).contains((v, d));
            let p = (v, d);
            assert(column_pairs(g).contains(p));
            let i = choose|i: int| #[trigger] group_holds(g, i, p.0, p.1);
        }
    } else {
        let h = g.drop_last();
        let n = h.len() as int;
        lemma_range_members(h, lo, hi, d);
        let head = range_docs(h, lo, hi);
        let tail = if value_within(g.last().0, lo, hi) {
            g.last().1
        } else {
            Seq::<DocId>::empty()
        };
        assert(range_docs(g, lo, hi) == head + tail);
        if range_docs(g, lo, hi).contains(d) {
            let x = choose|x: int| 0 <= x < (head + tail).len() && (head + tail)[x] == d;
            if x < head.len() {
                assert(head[x] == d);
                assert(head.contains(d));
                let v = choose|v: NumericValue| value_within(v, lo, hi) && #[trigger] column_pairs(h).contains((v, d));
                let p = (v, d);
                assert(column_pairs(h).contains(p));
                let i = choose|i: int| #[trigger] group_holds(h, i, p.0, p.1);
                assert(group_holds(g, i, p.0, p.1));
                assert(column_pairs(g).contains(p));
            } else {
                assert(tail[x - head.len()] == d);
                let v = g.last().0;
                let p = (v, d);
                assert(group_holds(g, n, p.0, p.1));
                assert(column_pairs(g).contains(p));
            }
        }
        if exists|v: NumericValue| value_within(v, lo, hi) && #[trigger] column_pairs(g).contains((v, d)) {
            let v = choose|v: NumericValue| value_within(v, lo, hi) && #[trigger] column_pairs(g).contains((v, d));
            let p = (v, d);
            assert(column_pairs(g).contains(p));
            let i = choose|i: int| #[trigger] group_holds(g, i, p.0, p.1);
            if i < n {
                assert(group_holds(h, i, p.0, p.1));
                assert(column_pairs(h).contains(p));
                let x = choose|x: int| 0 <= x < head.len() && head[x] == d;
                assert((head + tail)[x] == d);
            } else {
                let x = choose|x: int| 0 <= x < tail.len() && tail[x] == d;
                assert((head + tail)[head.len() + x] == d);
            }
        }
    }
}

/// The column of the path `x` among `s`, if there is one.
pub open spec fn column_in(s: Seq<(XPathId, NumericColumn)>, x: XPathId) -> Option<NumericColumn> {
    if exists|i: int| 0 <= i < s.len() && #[trigger] s[i].0 == x {
        Some(s[choose|i: int| 0 <= i < s.len() && #[trigger] s[i].0 == x].1)
    } else {
        None
    }
}

/// The pairs of value and document that the column of `x` holds, none where there is no
/// column.
pub open spec fn pairs_at(s: Seq<(XPathId, NumericColumn)>, x: XPathId) -> Set<(NumericValue, DocId)> {
    match column_in(s, x) {
        Some(c) => column_pairs(c.groups()),
        None => Set::empty(),
    }
}

/// How many documents the columns hold together.
pub open spec fn columns_total(s: Seq<(XPathId, NumericColumn)>) -> nat
    decreases s.len(),
{
    if s.len() == 0 {
        0
    } else {
        columns_total(s.drop_last()) + group_total(s.last().1.groups())
    }
}

/// The numeric columns of the documents in memory, one per field path, ordered by path.
#[derive(Debug, Clone)]
pub struct NumericColumns {
    columns: Vec<(XPathId, NumericColumn)>,
}

impl NumericColumns {
    /// The columns with their paths, ordered by path.
    pub closed spec fn column_seq(&self) -> Seq<(XPathId, NumericColumn)> {
        self.columns@
    }

    /// Paths strictly increase and every column is well formed.
    pub open spec fn wf(&self) -> bool {
        &&& forall|i: int, j: int| 0 <= i < j < self.column_seq().len() ==> #[trigger] self.column_seq()[i].0
            < #[trigger] self.column_seq()[j].0
        &&& forall|i: int| 0 <= i < self.column_seq().len() ==> (#[trigger] self.column_seq()[i]).1.wf()
    }

    /// The column of `x`, if there is one.
    pub open spec fn column_of(&self, x: XPathId) -> Option<NumericColumn> {
        column_in(self.column_seq(), x)
    }

    /// No column yet.
    pub fn new() -> (r: Self)
        ensures
            r.wf(),
            r.column_seq().len() == 0,
            forall|x: XPathId| #[trigger] r.column_of(x) is None,
    {
        NumericColumns { columns: Vec::new() }
    }

    /// Where the column of `xpath` is, or would be put.
    fn path_position(&self, xpath: XPathId) -> (k: usize)
        requires
            self.wf(),
        ensures
            k <= self.column_seq().len(),
            forall|i: int| 0 <= i < k ==> #[trigger] self.column_seq()[i].0 < xpath,
            forall|i: int| k <= i < self.column_seq().len() ==> #[trigger] self.column_seq()[i].0 >= xpath,
    {
        let mut lo: usize = 0;
        let mut hi: usize = self.columns.len();
        while lo < hi
            invariant
                self.wf(),
                lo <= hi <= self.column_seq().len(),
                self.column_seq() == self.columns@,
                forall|i: int| 0 <= i < lo ==> #[trigger] self.column_seq()[i].0 < xpath,
                forall|i: int| hi <= i < self.column_seq().len() ==> #[trigger] self.column_seq()[i].0 >= xpath,
            decreases hi - lo,
        {
            let mid = lo + (hi - lo) / 2;
            if self.columns[mid].0 < xpath {
                assert forall|i: int| 0 <= i <= mid implies #[trigger] self.column_seq()[i].0 < xpath by {
                    if i < mid {
                        assert(self.column_seq()[i].0 < self.column_seq()[mid as int].0);
                    }
                }
                lo = mid + 1;
            } else {
                assert forall|i: int| mid <= i < self.column_seq().len() implies #[trigger] self.column_seq()[i].0
                    >= xpath by {
                    if i > mid {
                        assert(self.column_seq()[mid as int].0 < self.column_seq()[i].0);
                    }
                }
                hi = mid;
            }
        }
        lo
    }

    /// Where the column of `xpath` is, if there is one.
    fn find(&self, xpath: XPathId) -> (r: Option<usize>)
        requires
            self.wf(),
        ensures
            match r {
                Some(k) => k < self.column_seq().len() && self.column_seq()[k as int].0 == xpath && self.column_of(xpath)
                    == Some(self.column_seq()[k as int].1),
                None => self.column_of(xpath) is None,
            },
    {
        let k = self.path_position(xpath);
        if k < self.columns.len() && self.columns[k].0 == xpath {
            proof {
                lemma_column_at(self.column_seq(), k as int, xpath);
            }
            Some(k)
        } else {
            proof {
                assert forall|i: int| 0 <= i < self.column_seq().len() implies #[trigger] self.column_seq()[i].0
                    != xpath by {
                    if i > k {
                        assert(self.column_seq()[k as int].0 < self.column_seq()[i].0);
                    }
                }
            }
            None
        }
    }

    /// The column of `xpath`, if there is one.
    pub fn column(&self, xpath: XPathId) -> (r: Option<&NumericColumn>)
        requires
            self.wf(),
        ensures
            match r {
                Some(c) => self.column_of(xpath) == Some(*c),
                None => self.column_of(xpath) is None,
            },
    {
        match self.find(xpath) {
            Some(k) => Some(&self.columns[k].1),
            None => None,
        }
    }

    /// Adds the document `doc_id` with `value` to the column of `xpath`, making the column
    /// where there is none; the other columns stay as they were.
    pub fn insert(&mut self, xpath: XPathId, value: NumericValue, doc_id: DocId)
        requires
            old(self).wf(),
        ensures
            final(self).wf(),
            final(self).column_of(xpath) is Some,
            pairs_at(final(self).column_seq(), xpath) == pairs_at(old(self).column_seq(), xpath).insert((value, doc_id)),
            forall|y: XPathId| y != xpath ==> #[trigger] final(self).column_of(y) == old(self).column_of(y),
    {
        let ghost s = self.column_seq();
        let k = self.path_position(xpath);
        if k < self.columns.len() && self.columns[k].0 == xpath {
            proof {
                lemma_column_at(s, k as int, xpath);
                assert(s[k as int].1.wf());
            }
            self.columns[k].1.insert(value, doc_id);
            proof {
                let ns = self.column_seq();
                assert(ns.len() == s.len());
                assert forall|i: int| 0 <= i < ns.len() && i != k implies #[trigger] ns[i] == s[i] by {}
                assert(ns[k as int].0 == xpath);
                lemma_column_at(ns, k as int, xpath);
                assert forall|y: XPathId| y != xpath implies #[trigger] column_in(ns, y) == column_in(s, y) by {
                    lemma_same_paths(s, ns, k as int, y);
                }
            }
        } else {
            let mut c = NumericColumn::new();
            c.insert(value, doc_id);
            proof {
                assert(column_pairs(c.groups()) =~= Set::<(NumericValue, DocId)>::empty().insert((value, doc_id)));
                assert forall|i: int| 0 <= i < s.len() implies #[trigger] s[i].0 != xpath by {
                    if i > k {
                        assert(s[k as int].0 < s[i].0);
                    }
                }
            }
            self.columns.insert(k, (xpath, c));
            proof {
                let ns = self.column_seq();
                assert(ns =~= s.insert(k as int, (xpath, c)));
                assert forall|i: int, j: int| 0 <= i < j < ns.len() implies #[trigger] ns[i].0 < #[trigger] ns[j].0 by {
                    if j < k {
                        assert(s[i].0 < s[j].0);
                    } else if j == k {
                    } else if i == k {
                        assert(ns[j] == s[j - 1]);
                    } else if i < k {
                        assert(ns[j] == s[j - 1]);
                    } else {
                        assert(ns[i] == s[i - 1] && ns[j] == s[j - 1]);
                        assert(s[i - 1].0 < s[j - 1].0);
                    }
                }
                assert forall|i: int| 0 <= i < ns.len() implies (#[trigger] ns[i]).1.wf() by {
                    if i > k {
                        assert(ns[i] == s[i - 1]);
                    }
                }
                lemma_column_at(ns, k as int, xpath);
                assert forall|y: XPathId| y != xpath implies #[trigger] column_in(ns, y) == column_in(s, y) by {
                    lemma_paths_after_insert(s, k as int, xpath, c, y);
                }
            }
        }
    }

    /// The documents of the column of `xpath` whose value lies within the bounds, as
    /// `NumericColumn::range` gives them; none where there is no column.
    pub fn range(&self, xpath: XPathId, lo: Option<NumericBound>, hi: Option<NumericBound>) -> (r: Vec<DocId>)
        requires
            self.wf(),
        ensures
            strictly_increasing(r@),
            match self.column_of(xpath) {
                Some(c) => r@.to_set() == docs_in_range(c.groups(), lo, hi),
                None => r@.len() == 0,
            },
    {
        match self.find(xpath) {
            Some(k) => {
                assert(self.column_seq()[k as int].1.wf());
                self.columns[k].1.range(lo, hi)
            },
            None => {
                let r: Vec<DocId> = Vec::new();
                assert(strictly_increasing(r@));
                r
            },
        }
    }

    /// The paths with their columns, ordered by path.
    pub fn iter(&self) -> (r: Vec<(XPathId, &NumericColumn)>)
        ensures
            r@.len() == self.column_seq().len(),
            forall|i: int| 0 <= i < r@.len() ==> (#[trigger] r@[i]).0 == self.column_seq()[i].0 && *r@[i].1
                == self.column_seq()[i].1,
    {
        let mut out: Vec<(XPathId, &NumericColumn)> = Vec::new();
        let mut i: usize = 0;
        while i < self.columns.len()
            invariant
                i <= self.columns@.len(),
                self.column_seq() == self.columns@,
                out@.len() == i,
                forall|j: int| 0 <= j < i ==> (#[trigger] out@[j]).0 == self.columns@[j].0 && *out@[j].1
                    == self.columns@[j].1,
            decreases self.columns@.len() - i,
        {
            out.push((self.columns[i].0, &self.columns[i].1));
            i += 1;
        }
        out
    }

    /// The paths that have a column, in increasing order.
    pub fn xpaths(&self) -> (r: Vec<XPathId>)
        ensures
            r@ == self.column_seq().map_values(|e: (XPathId, NumericColumn)| e.0),
    {
        let mut out: Vec<XPathId> = Vec::new();
        let mut i: usize = 0;
        while i < self.columns.len()
            invariant
                i <= self.columns@.len(),
                self.column_seq() == self.columns@,
                out@ == self.columns@.take(i as int).map_values(|e: (XPathId, NumericColumn)| e.0),
            decreases self.columns@.len() - i,
        {
            out.push(self.columns[i].0);
            proof {
                assert(self.columns@.take(i + 1).map_values(|e: (XPathId, NumericColumn)| e.0) =~= self.columns@.take(
                    i as int,
                ).map_values(|e: (XPathId, NumericColumn)| e.0).push(self.columns@[i as int].0));
            }
            i += 1;
        }
        proof {
            assert(self.columns@.take(self.columns@.len() as int) =~= self.columns@);
        }
        out
    }

    /// How many documents the columns hold together, counted once per path and value.
    pub fn len(&self) -> (r: usize)
        requires
            columns_total(self.column_seq()) <= usize::MAX,
        ensures
            r == columns_total(self.column_seq()),
    {
        let ghost s = self.column_seq();
        let mut total: usize = 0;
        let mut i: usize = 0;
        proof {
            assert(s.take(0) =~= Seq::<(XPathId, NumericColumn)>::empty());
        }
        while i < self.columns.len()
            invariant
                s == self.column_seq(),
                s == self.columns@,
                columns_total(s) <= usize::MAX,
                i <= s.len(),
                total == columns_total(s.take(i as int)),
            decreases s.len() - i,
        {
            proof {
                assert(s.take(i + 1).drop_last() =~= s.take(i as int));
                lemma_columns_total_prefix(s, i + 1);
            }
            total = total + self.columns[i].1.len();
            i += 1;
        }
        proof {
            assert(s.take(s.len() as int) =~= s);
        }
        total
    }

    /// Whether there is no column.
    pub fn is_empty(&self) -> (r: bool)
        ensures
            r == (self.column_seq().len() == 0),
    {
        self.columns.len() == 0
    }
}

/// With distinct paths, the column of the path at `k` is the one there.
proof fn lemma_column_at(s: Seq<(XPathId, NumericColumn)>, k: int, x: XPathId)
    requires
        forall|i: int, j: int| 0 <= i < j < s.len() ==> #[trigger] s[i].0 < #[trigger] s[j].0,
        0 <= k < s.len(),
        s[k].0 == x,
    ensures
        column_in(s, x) == Some(s[k].1),
{
    let c = choose|i: int| 0 <= i < s.len() && #[trigger] s[i].0 == x;
    if c < k {
        assert(s[c].0 < s[k].0);
    } else if c > k {
        assert(s[k].0 < s[c].0);
    }
}

/// Changing the column at `k` changes no other path's column.
proof fn lemma_same_paths(s: Seq<(XPathId, NumericColumn)>, ns: Seq<(XPathId, NumericColumn)>, k: int, y: XPathId)
    requires
        forall|i: int, j: int| 0 <= i < j < s.len() ==> #[trigger] s[i].0 < #[trigger] s[j].0,
        ns.len() == s.len(),
        0 <= k < s.len(),
        ns[k].0 == s[k].0,
        s[k].0 != y,
        forall|i: int| 0 <= i < ns.len() && i != k ==> #[trigger] ns[i] == s[i],
    ensures
        column_in(ns, y) == column_in(s, y),
{
    if exists|i: int| 0 <= i < s.len() && #[trigger] s[i].0 == y {
        let a = choose|i: int| 0 <= i < s.len() && #[trigger] s[i].0 == y;
        assert(ns[a].0 == y);
        let b = choose|i: int| 0 <= i < ns.len() && #[trigger] ns[i].0 == y;
        assert(ns[b] == s[b]);
        if a < b {
            assert(s[a].0 < s[b].0);
        } else if b < a {
            assert(s[b].0 < s[a].0);
        }
    } else {
        if exists|i: int| 0 <= i < ns.len() && #[trigger] ns[i].0 == y {
            let b = choose|i: int| 0 <= i < ns.len() && #[trigger] ns[i].0 == y;
            assert(ns[b] == s[b]);
        }
    }
}

/// A new column at `k` changes no other path's column.
proof fn lemma_paths_after_insert(s: Seq<(XPathId, NumericColumn)>, k: int, x: XPathId, c: NumericColumn, y: XPathId)
    requires
        forall|i: int, j: int| 0 <= i < j < s.len() ==> #[trigger] s[i].0 < #[trigger] s[j].0,
        0 <= k <= s.len(),
        x != y,
    ensures
        column_in(s.insert(k, (x, c)), y) == column_in(s, y),
{
    let ns = s.insert(k, (x, c));
    if exists|i: int| 0 <= i < s.len() && #[trigger] s[i].0 == y {
        let a = choose|i: int| 0 <= i < s.len() && #[trigger] s[i].0 == y;
        if a < k {
            assert(ns[a].0 == y);
        } else {
            assert(ns[a + 1].0 == y);
        }
        let b = choose|i: int| 0 <= i < ns.len() && #[trigger] ns[i].0 == y;
        let bs = if b < k { b } else { b - 1 };
        assert(ns[b] == s[bs]);
        if a < bs {
            assert(s[a].0 < s[bs].0);
        } else if bs < a {
            assert(s[bs].0 < s[a].0);
        }
    } else {
        if exists|i: int| 0 <= i < ns.len() && #[trigger] ns[i].0 == y {
            let b = choose|i: int| 0 <= i < ns.len() && #[trigger] ns[i].0 == y;
            if b < k {
                assert(ns[b] == s[b]);
            } else {
                assert(ns[b] == s[b - 1]);
            }
        }
    }
}

/// The total of a prefix grows by the next column's documents.
proof fn lemma_columns_total_prefix(s: Seq<(XPathId, NumericColumn)>, i: int)
    requires
        0 < i <= s.len(),
    ensures
        columns_total(s.take(i)) == columns_total(s.take(i - 1)) + group_total(s[i - 1].1.groups()),
        columns_total(s.take(i)) <= columns_total(s),
    decreases s.len() - i,
{
    assert(s.take(i).drop_last() =~= s.take(i - 1));
    if i < s.len() {
        lemma_columns_total_prefix(s, i + 1);
    } else {
        assert(s.take(i) =~= s);
    }
}

} // verus!
