//! How the sort requests and the field filters of a search are checked against the index
//! policy.

use vstd::prelude::*;

use crate::document::policy::{FieldKind, FieldPolicy, IndexPolicy};
use crate::filter::{filter_parsed, int_filter_spec, parse_filter, parse_integer_filter, result_view, EncodedBound, NumericRange};
use crate::text::{chars_of, push_text, text_eq, trim_chars, trimmed};
use crate::types::XPathId;

verus! {

broadcast use vstd::string::group_string_axioms;

/// Which way a sort field orders the hits.
#[derive(Debug, Clone, Copy, PartialEq, Eq, Structural)]
pub enum SortOrder {
    Asc,
    Desc,
}

/// What a search asks of one sort field: its share of the ranking and its direction.
#[derive(Debug, Clone, Copy)]
pub struct SortRequest {
    pub ratio: Option<u8>,
    pub order: SortOrder,
}

/// A sort field checked against the policy.
#[derive(Debug, Clone, Copy, PartialEq, Eq, Structural)]
pub struct SortField {
    pub xpath: XPathId,
    pub order: SortOrder,
    pub ratio: u8,
    pub is_float: bool,
}

/// Why a search request was refused.
#[derive(Debug)]
pub enum QueryError {
    PathNotIndexed(String),
    InvalidData(String),
}

/// The refusal, with its text.
pub ghost enum QueryErrorV {
    PathNotIndexed(Seq<char>),
    InvalidData(Seq<char>),
}

impl View for QueryError {
    type V = QueryErrorV;

    open spec fn view(&self) -> QueryErrorV {
        match self {
            QueryError::PathNotIndexed(s) => QueryErrorV::PathNotIndexed(s@),
            QueryError::InvalidData(s) => QueryErrorV::InvalidData(s@),
        }
    }
}

/// Where the first field of `fields` from `i` on named `name` stands, if any.
pub open spec fn first_named_from(fields: Seq<FieldPolicy>, name: Seq<char>, i: int) -> Option<int>
    decreases fields.len() - i,
{
    if i < 0 || i >= fields.len() {
        None
    } else if fields[i].name@ == name {
        Some(i)
    } else {
        first_named_from(fields, name, i + 1)
    }
}

/// Where the first field of `fields` named `name` stands, if any.
pub open spec fn first_named(fields: Seq<FieldPolicy>, name: Seq<char>) -> Option<int> {
    first_named_from(fields, name, 0)
}

proof fn lemma_first_named_in_range(fields: Seq<FieldPolicy>, name: Seq<char>, i: int)
    requires
        0 <= i,
    ensures
        first_named_from(fields, name, i) matches Some(j) ==> i <= j < fields.len() && fields[j].name@ == name,
    decreases fields.len() - i,
{
    if i < fields.len() && fields[i].name@ != name {
        lemma_first_named_in_range(fields, name, i + 1);
    }
}

/// The refusal of a sort by a field that is not numeric.
pub open spec fn not_numeric_message(field: Seq<char>) -> Seq<char> {
    "sorting by '"@ + field + "' is not supported yet (only numeric fields)"@
}

/// The refusal of a sort field without a ratio among several.
pub open spec fn ratio_required_message(field: Seq<char>) -> Seq<char> {
    "'ratio' is required for sort field '"@ + field + "' when sorting by more than one field"@
}

/// The refusal of a ratio above 100.
pub open spec fn ratio_range_message(field: Seq<char>) -> Seq<char> {
    "sort ratio for '"@ + field + "' must be between 0 and 100"@
}

/// The refusal of ratios that add up to more than 100.
pub open spec fn ratio_total_message() -> Seq<char> {
    "sort ratios must add up to at most 100 (the rest is relevance)"@
}

/// `r` with `p` in front of what it holds.
pub open spec fn prepend(p: Seq<SortField>, r: Result<Seq<SortField>, QueryErrorV>) -> Result<Seq<SortField>, QueryErrorV> {
    match r {
        Ok(s) => Ok(p + s),
        Err(e) => Err(e),
    }
}

/// The sort field for the request `req` for `field`, one of `count` requests, `total` being
/// the ratio taken by those before it and `ids` the ids of the fields: the request names a
/// numeric field of the policy, has a ratio of at most 100 (100 where it is the only one and
/// names none), and the ratios add up to at most 100.
pub open spec fn sort_step(
    field: Seq<char>,
    req: SortRequest,
    count: int,
    fields: Seq<FieldPolicy>,
    ids: Map<Seq<char>, XPathId>,
    total: int,
) -> Result<SortField, QueryErrorV> {
    match first_named(fields, field) {
        None => Err(QueryErrorV::PathNotIndexed(field)),
        Some(j) => {
            let kind = fields[j].kind;
            if kind != FieldKind::Integer && kind != FieldKind::Float {
                Err(QueryErrorV::InvalidData(not_numeric_message(field)))
            } else if !(count == 1 && req.ratio is None) && req.ratio is None {
                Err(QueryErrorV::InvalidData(ratio_required_message(field)))
            } else {
                let ratio: u8 = if count == 1 && req.ratio is None { 100 } else { req.ratio->0 };
                if ratio > 100 {
                    Err(QueryErrorV::InvalidData(ratio_range_message(field)))
                } else if total + ratio > 100 {
                    Err(QueryErrorV::InvalidData(ratio_total_message()))
                } else {
                    Ok(SortField { xpath: ids[field], order: req.order, ratio, is_float: kind == FieldKind::Float })
                }
            }
        },
    }
}

/// The sort fields for the requests from `i` on, `total` being the ratio taken by those
/// before; the first request that fails decides the refusal.
pub open spec fn sorts_from(
    reqs: Seq<(String, SortRequest)>,
    fields: Seq<FieldPolicy>,
    ids: Map<Seq<char>, XPathId>,
    i: int,
    total: int,
) -> Result<Seq<SortField>, QueryErrorV>
    decreases reqs.len() - i,
{
    if i < 0 || i >= reqs.len() {
        Ok(Seq::empty())
    } else {
        match sort_step(reqs[i].0@, reqs[i].1, reqs.len() as int, fields, ids, total) {
            Err(e) => Err(e),
            Ok(f) => prepend(seq![f], sorts_from(reqs, fields, ids, i + 1, total + f.ratio)),
        }
    }
}

/// The first field of `fields` named `name`.
fn find_field(fields: &Vec<FieldPolicy>, name: &str) -> (r: Option<usize>)
    ensures
        match first_named(fields@, name@) {
            Some(j) => r == Some(j as usize),
            None => r is None,
        },
{
    let mut i: usize = 0;
    while i < fields.len()
        invariant
            i <= fields@.len(),
            first_named(fields@, name@) == first_named_from(fields@, name@, i as int),
        decreases fields@.len() - i,
    {
        if text_eq(fields[i].name.as_str(), name) {
            return Some(i);
        }
        i += 1;
    }
    None
}

/// `left`, then `field`, then `right`.
fn message(left: &str, field: &str, right: &str) -> (r: String)
    ensures
        r@ == left@ + field@ + right@,
{
    let mut s = String::new();
    push_text(&mut s, left);
    push_text(&mut s, field);
    push_text(&mut s, right);
    s
}

/// The sort field for one request, as `sort_step` says.
fn sort_field_for(field: &String, req: SortRequest, count: usize, total: u32, policy: &IndexPolicy) -> (r: Result<SortField, QueryError>)
    requires
        policy.wf(),
        total <= 100,
        forall|i: int| 0 <= i < policy.fields@.len() ==> policy.registry().id_view().contains_key(#[trigger] policy.fields@[i].name@),
    ensures
        match sort_step(field@, req, count as int, policy.fields@, policy.registry().id_view(), total as int) {
            Ok(f) => r matches Ok(x) && x == f,
            Err(e) => r matches Err(x) && x@ == e,
        },
{
    proof {
        lemma_first_named_in_range(policy.fields@, field@, 0);
    }
    let name = field.as_str();
    assert(name@ == field@);
    let j = match find_field(&policy.fields, name) {
        Some(j) => j,
        None => {
            return Err(QueryError::PathNotIndexed(field.clone()));
        },
    };
    let fp = &policy.fields[j];
    proof {
        match first_named(policy.fields@, field@) {
            Some(k) => {
                assert(policy.fields@.len() == policy.fields.len());
            },
            None => {
                assert(false);
            },
        }
    }
    assert(policy.fields@[j as int] == *fp);
    let is_float = match fp.kind {
        FieldKind::Integer => false,
        FieldKind::Float => true,
        _ => {
            return Err(
                QueryError::InvalidData(
                    message("sorting by '", field.as_str(), "' is not supported yet (only numeric fields)"),
                ),
            );
        },
    };
    let ratio: u8 = if count == 1 && req.ratio.is_none() {
        100
    } else {
        match req.ratio {
            Some(ratio) => ratio,
            None => {
                return Err(
                    QueryError::InvalidData(
                        message("'ratio' is required for sort field '", field.as_str(), "' when sorting by more than one field"),
                    ),
                );
            },
        }
    };
    if ratio > 100 {
        return Err(QueryError::InvalidData(message("sort ratio for '", field.as_str(), "' must be between 0 and 100")));
    }
    if total + ratio as u32 > 100 {
        let mut s = String::new();
        push_text(&mut s, "sort ratios must add up to at most 100 (the rest is relevance)");
        return Err(QueryError::InvalidData(s));
    }
    let xpath = fp.xpath(policy);
    Ok(SortField { xpath, order: req.order, ratio, is_float })
}

/// Checks the sort requests of a search against `policy`, in order, and gives the sort fields:
/// nothing where there is no request.
pub fn resolve_sorts(requests: &[(String, SortRequest)], policy: &IndexPolicy) -> (r: Result<Option<Vec<SortField>>, QueryError>)
    requires
        policy.wf(),
        forall|i: int| 0 <= i < policy.fields@.len() ==> policy.registry().id_view().contains_key(#[trigger] policy.fields@[i].name@),
    ensures
        requests@.len() == 0 ==> (r matches Ok(x) && x is None),
        requests@.len() > 0 ==> match sorts_from(requests@, policy.fields@, policy.registry().id_view(), 0, 0) {
            Ok(s) => r matches Ok(Some(v)) && v@ == s,
            Err(e) => r matches Err(x) && x@ == e,
        },
{
    if requests.len() == 0 {
        return Ok(None);
    }
    let ghost reqs = requests@;
    let ghost fields = policy.fields@;
    let ghost ids = policy.registry().id_view();
    let count = requests.len();
    let mut sorts: Vec<SortField> = Vec::new();
    let mut total: u32 = 0;
    let mut i: usize = 0;
    while i < count
        invariant
            reqs == requests@,
            fields == policy.fields@,
            ids == policy.registry().id_view(),
            policy.wf(),
            forall|k: int| 0 <= k < fields.len() ==> ids.contains_key(#[trigger] fields[k].name@),
            count == reqs.len(),
            i <= count,
            total <= 100,
            sorts_from(reqs, fields, ids, 0, 0) == prepend(sorts@, sorts_from(reqs, fields, ids, i as int, total as int)),
        decreases count - i,
    {
        let f = match sort_field_for(&requests[i].0, requests[i].1, count, total, policy) {
            Ok(f) => f,
            Err(e) => {
                return Err(e);
            },
        };
        total = total + f.ratio as u32;
        let ghost before = sorts@;
        sorts.push(f);
        proof {
            let one = seq![f];
            assert(sorts@ == before + one);
            match sorts_from(reqs, fields, ids, i + 1, total as int) {
                Ok(rest) => {
                    assert(before + (one + rest) =~= sorts@ + rest);
                },
                Err(_) => {},
            }
        }
        i += 1;
    }
    proof {
        assert(sorts@ + Seq::<SortField>::empty() =~= sorts@);
    }
    Ok(Some(sorts))
}

/// What a filter on one field selects.
#[derive(Debug)]
pub enum FieldFilterKind {
    /// The documents that match a text query; the term is kept for the query parser.
    Text(String),
    /// The documents whose term of the field lies within the range.
    Range { lo: Option<EncodedBound>, hi: Option<EncodedBound> },
}

/// A filter checked against the policy: the id of the field's path and what it selects.
#[derive(Debug)]
pub struct FieldFilter {
    pub xpath: XPathId,
    pub kind: FieldFilterKind,
}

/// What a filter selects, with texts for strings.
pub ghost enum FilterKindV {
    Text(Seq<char>),
    Range(Option<(Seq<char>, bool)>, Option<(Seq<char>, bool)>),
}

/// A filter as its path id and the view of what it selects.
pub open spec fn filter_view(f: FieldFilter) -> (XPathId, FilterKindV) {
    (
        f.xpath,
        match f.kind {
            FieldFilterKind::Text(t) => FilterKindV::Text(t@),
            FieldFilterKind::Range { lo, hi } => FilterKindV::Range(
                crate::filter::bound_view(lo),
                crate::filter::bound_view(hi),
            ),
        },
    )
}

/// The outcome of resolving one filter, viewed.
pub open spec fn filter_result_view(r: Result<Option<FieldFilter>, QueryError>) -> Result<
    Option<(XPathId, FilterKindV)>,
    QueryErrorV,
> {
    match r {
        Ok(Some(f)) => Ok(Some(filter_view(f))),
        Ok(None) => Ok(None),
        Err(e) => Err(e@),
    }
}

/// The refusal of a numeric filter that does not parse.
pub open spec fn filter_message(term: Seq<char>, field: Seq<char>, e: Seq<char>) -> Seq<char> {
    "invalid filter '"@ + term + "' on numeric field '"@ + field + "': "@ + e
}

/// The filter on a numeric field from the parse `p` of its term.
pub open spec fn numeric_outcome(
    field: Seq<char>,
    term: Seq<char>,
    xpath: XPathId,
    p: Result<(Option<(Seq<char>, bool)>, Option<(Seq<char>, bool)>), Seq<char>>,
) -> Result<Option<(XPathId, FilterKindV)>, QueryErrorV> {
    match p {
        Ok((lo, hi)) => Ok(Some((xpath, FilterKindV::Range(lo, hi)))),
        Err(m) => Err(QueryErrorV::InvalidData(filter_message(term, field, m))),
    }
}

/// Whether `out` is a possible outcome of the filter `term` on `field`: nothing for a blank
/// term; a field that the policy does not name, or that is neither text nor a number, is not
/// indexed; a text field keeps the term as a query; an integer field takes the range of its
/// integer terms, a float field one that `encode_float` may give.
pub open spec fn filter_outcome<F: Fn(&str) -> Option<String>>(
    field: Seq<char>,
    term: Seq<char>,
    fields: Seq<FieldPolicy>,
    ids: Map<Seq<char>, XPathId>,
    encode_float: F,
    out: Result<Option<(XPathId, FilterKindV)>, QueryErrorV>,
) -> bool {
    if trimmed(term).len() == 0 {
        out == Ok::<Option<(XPathId, FilterKindV)>, QueryErrorV>(None)
    } else {
        match first_named(fields, field) {
            None => out == Err::<Option<(XPathId, FilterKindV)>, QueryErrorV>(QueryErrorV::PathNotIndexed(field)),
            Some(j) => match fields[j].kind {
                FieldKind::Text => out == Ok::<Option<(XPathId, FilterKindV)>, QueryErrorV>(
                    Some((ids[field], FilterKindV::Text(term))),
                ),
                FieldKind::Integer => out == numeric_outcome(field, term, ids[field], int_filter_spec(term)),
                FieldKind::Float => exists|p: Result<(Option<(Seq<char>, bool)>, Option<(Seq<char>, bool)>), Seq<char>>|
                    #[trigger] filter_parsed(term, encode_float, p) && out == numeric_outcome(field, term, ids[field], p),
                _ => out == Err::<Option<(XPathId, FilterKindV)>, QueryErrorV>(QueryErrorV::PathNotIndexed(field)),
            },
        }
    }
}

/// The range of a parsed numeric filter, or its refusal worded for the field.
fn numeric_filter(field: &String, term: &String, xpath: XPathId, parsed: Result<NumericRange, String>) -> (r: Result<
    Option<FieldFilter>,
    QueryError,
>)
    ensures
        filter_result_view(r) == numeric_outcome(field@, term@, xpath, result_view(parsed)),
{
    match parsed {
        Ok(range) => Ok(Some(FieldFilter { xpath, kind: FieldFilterKind::Range { lo: range.lo, hi: range.hi } })),
        Err(e) => {
            let mut m = message("invalid filter '", term.as_str(), "' on numeric field '");
            push_text(&mut m, field.as_str());
            push_text(&mut m, "': ");
            push_text(&mut m, e.as_str());
            Err(QueryError::InvalidData(m))
        },
    }
}

/// Checks the filter `term` on `field` against `policy`, as `filter_outcome` says; float
/// numbers are encoded with `encode_float`.
pub fn resolve_filter<F: Fn(&str) -> Option<String> + Copy>(
    field: &String,
    term: &String,
    policy: &IndexPolicy,
    encode_float: F,
) -> (r: Result<Option<FieldFilter>, QueryError>)
    requires
        policy.wf(),
        forall|i: int| 0 <= i < policy.fields@.len() ==> policy.registry().id_view().contains_key(#[trigger] policy.fields@[i].name@),
        forall|x: &str| #[trigger] encode_float.requires((x,)),
    ensures
        filter_outcome(field@, term@, policy.fields@, policy.registry().id_view(), encode_float, filter_result_view(r)),
{
    let t = trim_chars(chars_of(term.as_str()).as_slice());
    if t.len() == 0 {
        return Ok(None);
    }
    proof {
        lemma_first_named_in_range(policy.fields@, field@, 0);
    }
    let name = field.as_str();
    let j = match find_field(&policy.fields, name) {
        Some(j) => j,
        None => {
            return Err(QueryError::PathNotIndexed(field.clone()));
        },
    };
    let fp = &policy.fields[j];
    proof {
        match first_named(policy.fields@, field@) {
            Some(k) => {
                assert(policy.fields@.len() == policy.fields.len());
            },
            None => {
                assert(false);
            },
        }
    }
    assert(policy.fields@[j as int] == *fp);
    match fp.kind {
        FieldKind::Text => {
            let xpath = fp.xpath(policy);
            Ok(Some(FieldFilter { xpath, kind: FieldFilterKind::Text(term.clone()) }))
        },
        FieldKind::Integer => {
            let xpath = fp.xpath(policy);
            let parsed = parse_integer_filter(term.as_str());
            numeric_filter(field, term, xpath, parsed)
        },
        FieldKind::Float => {
            let xpath = fp.xpath(policy);
            let parsed = parse_filter(term.as_str(), encode_float);
            let r = numeric_filter(field, term, xpath, parsed);
            assert(filter_parsed(term@, encode_float, result_view(parsed)));
            r
        },
        _ => Err(QueryError::PathNotIndexed(field.clone())),
    }
}

/// A resolved filter with its field's name, viewed.
pub type NamedFilterV = (Seq<char>, (XPathId, FilterKindV));

/// The filters collected so far, after one more outcome: a filter that selects something is
/// added with its field's name, a blank one adds nothing, a refusal ends it.
pub open spec fn after_filter(
    acc: Seq<NamedFilterV>,
    name: Seq<char>,
    o: Result<Option<(XPathId, FilterKindV)>, QueryErrorV>,
) -> Result<Seq<NamedFilterV>, QueryErrorV> {
    match o {
        Ok(None) => Ok(acc),
        Ok(Some(f)) => Ok(acc.push((name, f))),
        Err(e) => Err(e),
    }
}

/// The filters collected from the outcomes `os` of the first filters of `reqs` (each a
/// field's name and a term), in order: those that select something, with their fields'
/// names, or the first refusal.
pub open spec fn fold_filters(
    reqs: Seq<(String, String)>,
    os: Seq<Result<Option<(XPathId, FilterKindV)>, QueryErrorV>>,
) -> Result<Seq<NamedFilterV>, QueryErrorV>
    decreases os.len(),
{
    if os.len() == 0 {
        Ok(Seq::empty())
    } else {
        match fold_filters(reqs, os.drop_last()) {
            Err(e) => Err(e),
            Ok(acc) => after_filter(acc, reqs[os.len() - 1].0@, os.last()),
        }
    }
}

/// Whether each of `os` is a possible outcome of the filter of `reqs` at its place.
pub open spec fn outcomes_valid<F: Fn(&str) -> Option<String>>(
    reqs: Seq<(String, String)>,
    fields: Seq<FieldPolicy>,
    ids: Map<Seq<char>, XPathId>,
    encode_float: F,
    os: Seq<Result<Option<(XPathId, FilterKindV)>, QueryErrorV>>,
) -> bool {
    forall|i: int| 0 <= i < os.len() ==> filter_outcome(reqs[i].0@, reqs[i].1@, fields, ids, encode_float, #[trigger] os[i])
}

/// The resolved filters, viewed.
pub open spec fn filters_view(v: Seq<(String, FieldFilter)>) -> Seq<NamedFilterV> {
    v.map_values(|e: (String, FieldFilter)| (e.0@, filter_view(e.1)))
}

/// Checks every filter of a search against `policy`, in order, each as `filter_outcome` says,
/// and collects them as `fold_filters` does, stopping at the first refusal; nothing where
/// the search has no filters.
pub fn resolve_filters<F: Fn(&str) -> Option<String> + Copy>(
    filters: &Option<Vec<(String, String)>>,
    policy: &IndexPolicy,
    encode_float: F,
) -> (r: Result<Option<Vec<(String, FieldFilter)>>, QueryError>)
    requires
        policy.wf(),
        forall|i: int| 0 <= i < policy.fields@.len() ==> policy.registry().id_view().contains_key(#[trigger] policy.fields@[i].name@),
        forall|x: &str| #[trigger] encode_float.requires((x,)),
    ensures
        filters is None ==> r matches Ok(None),
        filters matches Some(fs) ==> match r {
            Ok(Some(v)) => exists|os: Seq<Result<Option<(XPathId, FilterKindV)>, QueryErrorV>>|
                os.len() == fs@.len() && outcomes_valid(fs@, policy.fields@, policy.registry().id_view(), encode_float, os)
                    && #[trigger] fold_filters(fs@, os) == Ok::<Seq<NamedFilterV>, QueryErrorV>(filters_view(v@)),
            Ok(None) => false,
            Err(e) => exists|os: Seq<Result<Option<(XPathId, FilterKindV)>, QueryErrorV>>|
                os.len() <= fs@.len() && outcomes_valid(fs@, policy.fields@, policy.registry().id_view(), encode_float, os)
                    && #[trigger] fold_filters(fs@, os) == Err::<Seq<NamedFilterV>, QueryErrorV>(e@),
        },
{
    let fs = match filters {
        Some(fs) => fs,
        None => {
            return Ok(None);
        },
    };
    let ghost reqs = fs@;
    let ghost fields = policy.fields@;
    let ghost ids = policy.registry().id_view();
    let ghost mut os: Seq<Result<Option<(XPathId, FilterKindV)>, QueryErrorV>> = Seq::empty();
    let mut out: Vec<(String, FieldFilter)> = Vec::new();
    let mut i: usize = 0;
    proof {
        assert(filters_view(out@) =~= Seq::<NamedFilterV>::empty());
    }
    while i < fs.len()
        invariant
            reqs == fs@,
            fields == policy.fields@,
            ids == policy.registry().id_view(),
            policy.wf(),
            forall|k: int| 0 <= k < fields.len() ==> ids.contains_key(#[trigger] fields[k].name@),
            forall|x: &str| #[trigger] encode_float.requires((x,)),
            *filters == Some(*fs),
            i <= reqs.len(),
            os.len() == i,
            outcomes_valid(reqs, fields, ids, encode_float, os),
            fold_filters(reqs, os) == Ok::<Seq<NamedFilterV>, QueryErrorV>(filters_view(out@)),
        decreases reqs.len() - i,
    {
        let ghost acc = filters_view(out@);
        let res = resolve_filter(&fs[i].0, &fs[i].1, policy, encode_float);
        let ghost o = filter_result_view(res);
        let ghost os0 = os;
        proof {
            os = os.push(o);
            assert(os.drop_last() =~= os0);
            assert(reqs[i as int] == fs@[i as int]);
            assert forall|k: int| 0 <= k < os.len() implies filter_outcome(
                reqs[k].0@,
                reqs[k].1@,
                fields,
                ids,
                encode_float,
                #[trigger] os[k],
            ) by {
                if k < i {
                    assert(os[k] == os0[k]);
                }
            }
            assert(fold_filters(reqs, os) == after_filter(acc, reqs[i as int].0@, o));
        }
        match res {
            Ok(Some(f)) => {
                let name = fs[i].0.clone();
                out.push((name, f));
                proof {
                    assert(filters_view(out@) =~= acc.push((reqs[i as int].0@, filter_view(f))));
                }
            },
            Ok(None) => {},
            Err(e) => {
                proof {
                    assert(fold_filters(reqs, os) == Err::<Seq<NamedFilterV>, QueryErrorV>(e@));
                    assert(os.len() <= fs@.len());
                    assert(outcomes_valid(fs@, policy.fields@, policy.registry().id_view(), encode_float, os));
                    assert(fold_filters(fs@, os) == Err::<Seq<NamedFilterV>, QueryErrorV>(e@));
                    assert(exists|w: Seq<Result<Option<(XPathId, FilterKindV)>, QueryErrorV>>|
                        w.len() <= fs@.len() && outcomes_valid(fs@, policy.fields@, policy.registry().id_view(), encode_float, w)
                            && #[trigger] fold_filters(fs@, w) == Err::<Seq<NamedFilterV>, QueryErrorV>(e@));
                }
                let r: Result<Option<Vec<(String, FieldFilter)>>, QueryError> = Err(e);
                assert(filters matches Some(v) && v@ == fs@);
                return r;
            },
        }
        i += 1;
    }
    proof {
        assert(fold_filters(reqs, os) == Ok::<Seq<NamedFilterV>, QueryErrorV>(filters_view(out@)));
    }
    Ok(Some(out))
}

} // verus!
