//! The grammar of numeric filters: `30..40`, `>40`, `>=40`, `<50`, `<=50`, `=20`, `==20` or a
//! bare `20`. A filter is cut into its operator and its numbers, each number is encoded as an
//! index term by an encoder that the caller picks, and the terms become the bounds of a range.

use vstd::prelude::*;
use vstd::slice::slice_subrange;

use crate::disk::segment::text_before;
use crate::numbers::{integer_term, integer_text, text_less};
use crate::text::{chars_of, parse_i64_spec, push_text, string_of, trim_chars, trimmed};

verus! {

broadcast use vstd::string::group_string_axioms;

/// One end of a range of index terms.
#[derive(Debug, Clone, PartialEq, Eq)]
pub struct EncodedBound {
    pub term: String,
    pub inclusive: bool,
}

/// A range of index terms; a missing end is open.
#[derive(Debug, Clone, PartialEq, Eq)]
pub struct NumericRange {
    pub lo: Option<EncodedBound>,
    pub hi: Option<EncodedBound>,
}

/// A bound as its term's text and whether it is included.
pub open spec fn bound_view(b: Option<EncodedBound>) -> Option<(Seq<char>, bool)> {
    match b {
        Some(x) => Some((x.term@, x.inclusive)),
        None => None,
    }
}

/// A range as the views of its ends.
pub open spec fn range_view(r: NumericRange) -> (Option<(Seq<char>, bool)>, Option<(Seq<char>, bool)>) {
    (bound_view(r.lo), bound_view(r.hi))
}

/// The result of building a range, with texts for strings.
pub open spec fn result_view(r: Result<NumericRange, String>) -> Result<
    (Option<(Seq<char>, bool)>, Option<(Seq<char>, bool)>),
    Seq<char>,
> {
    match r {
        Ok(x) => Ok(range_view(x)),
        Err(e) => Err(e@),
    }
}

/// The text of an optional string.
pub open spec fn text_of(o: Option<String>) -> Option<Seq<char>> {
    match o {
        Some(s) => Some(s@),
        None => None,
    }
}

/// The comparison a filter without `..` starts with.
#[derive(Debug, Clone, Copy, PartialEq, Eq, Structural)]
pub enum FilterOp {
    Eq,
    EqEq,
    Ge,
    Gt,
    Le,
    Lt,
    Bare,
}

/// How an operator is written.
pub open spec fn op_text(op: FilterOp) -> Seq<char> {
    match op {
        FilterOp::Eq => "="@,
        FilterOp::EqEq => "=="@,
        FilterOp::Ge => ">="@,
        FilterOp::Gt => ">"@,
        FilterOp::Le => "<="@,
        FilterOp::Lt => "<"@,
        FilterOp::Bare => ""@,
    }
}

/// The operator `s` starts with and how many characters it takes; two-character operators
/// are tried first.
pub open spec fn op_of(s: Seq<char>) -> (FilterOp, int) {
    if s.len() >= 2 && s[0] == '>' && s[1] == '=' {
        (FilterOp::Ge, 2)
    } else if s.len() >= 2 && s[0] == '<' && s[1] == '=' {
        (FilterOp::Le, 2)
    } else if s.len() >= 2 && s[0] == '=' && s[1] == '=' {
        (FilterOp::EqEq, 2)
    } else if s.len() >= 1 && s[0] == '>' {
        (FilterOp::Gt, 1)
    } else if s.len() >= 1 && s[0] == '<' {
        (FilterOp::Lt, 1)
    } else if s.len() >= 1 && s[0] == '=' {
        (FilterOp::Eq, 1)
    } else {
        (FilterOp::Bare, 0)
    }
}

/// Whether `t` starts with a comparison.
pub open spec fn has_op_prefix(t: Seq<char>) -> bool {
    t.len() > 0 && (t[0] == '=' || t[0] == '>' || t[0] == '<')
}

/// Where the first `..` of `s` at or after `i` starts, if anywhere.
pub open spec fn first_dots(s: Seq<char>, i: int) -> Option<int>
    decreases s.len() - i,
{
    if i < 0 || i + 1 >= s.len() {
        None
    } else if s[i] == '.' && s[i + 1] == '.' {
        Some(i)
    } else {
        first_dots(s, i + 1)
    }
}

/// A filter cut into its parts: a range between two numbers, or a comparison with one.
#[derive(Debug)]
pub enum FilterShape {
    Between(String, String),
    Single(FilterOp, String),
}

/// The parts of a filter, as texts.
pub ghost enum ShapeV {
    Between(Seq<char>, Seq<char>),
    Single(FilterOp, Seq<char>),
}

impl View for FilterShape {
    type V = ShapeV;

    open spec fn view(&self) -> ShapeV {
        match self {
            FilterShape::Between(l, r) => ShapeV::Between(l@, r@),
            FilterShape::Single(op, t) => ShapeV::Single(*op, t@),
        }
    }
}

/// The refusal of operators beside `..`.
pub open spec fn mixed_message(s: Seq<char>) -> Seq<char> {
    "comparison operators can't be combined with '..' (use '30..40', or '>40'): '"@ + s + "'"@
}

/// The refusal of a `..` without both ends.
pub open spec fn open_range_message(s: Seq<char>) -> Seq<char> {
    "'..' requires both bounds, e.g. '30..40' (use '>=30' or '<=40' for one-sided ranges): '"@ + s + "'"@
}

/// How the filter `raw` is cut: trimmed; at its first `..` into two trimmed numbers, neither
/// starting with a comparison and neither empty; otherwise into its leading operator and the
/// trimmed number after it, which must not be empty.
pub open spec fn filter_shape(raw: Seq<char>) -> Result<ShapeV, Seq<char>> {
    let s = trimmed(raw);
    if s.len() == 0 {
        Err("empty numeric filter"@)
    } else {
        match first_dots(s, 0) {
            Some(k) => {
                let left = trimmed(s.subrange(0, k));
                let right = trimmed(s.subrange(k + 2, s.len() as int));
                if has_op_prefix(left) || has_op_prefix(right) {
                    Err(mixed_message(s))
                } else if left.len() == 0 || right.len() == 0 {
                    Err(open_range_message(s))
                } else {
                    Ok(ShapeV::Between(left, right))
                }
            },
            None => {
                let (op, n) = op_of(s);
                let rest = trimmed(s.subrange(n, s.len() as int));
                if rest.len() == 0 {
                    Err("missing number after '"@ + op_text(op) + "'"@)
                } else {
                    Ok(ShapeV::Single(op, rest))
                }
            },
        }
    }
}

/// The range of a filter cut as `shape`, `first` being the term of its (first) number and
/// `second` that of its upper number, `None` where a number could not be encoded.
pub open spec fn range_spec(shape: ShapeV, first: Option<Seq<char>>, second: Option<Seq<char>>) -> Result<
    (Option<(Seq<char>, bool)>, Option<(Seq<char>, bool)>),
    Seq<char>,
> {
    match shape {
        ShapeV::Between(l, r) => match first {
            None => Err("invalid lower bound '"@ + l + "'"@),
            Some(a) => match second {
                None => Err("invalid upper bound '"@ + r + "'"@),
                Some(b) => if text_less(b, a) {
                    Err("empty range: lower '"@ + l + "' is greater than upper '"@ + r + "'"@)
                } else {
                    Ok((Some((a, true)), Some((b, true))))
                },
            },
        },
        ShapeV::Single(op, rest) => match first {
            None => Err("invalid number '"@ + rest + "'"@),
            Some(t) => Ok(
                match op {
                    FilterOp::Ge => (Some((t, true)), None),
                    FilterOp::Gt => (Some((t, false)), None),
                    FilterOp::Le => (None, Some((t, true))),
                    FilterOp::Lt => (None, Some((t, false))),
                    _ => (Some((t, true)), Some((t, true))),
                },
            ),
        },
    }
}

/// `a`, then `b`, then `c`.
fn join3(a: &str, b: &str, c: &str) -> (r: String)
    ensures
        r@ == a@ + b@ + c@,
{
    let mut s = String::new();
    push_text(&mut s, a);
    push_text(&mut s, b);
    push_text(&mut s, c);
    s
}

/// Cuts the filter `raw` into its parts, as `filter_shape` says.
pub fn split_filter(raw: &str) -> (r: Result<FilterShape, String>)
    ensures
        match filter_shape(raw@) {
            Ok(shape) => r matches Ok(x) && x@ == shape,
            Err(m) => r matches Err(e) && e@ == m,
        },
{
    let all = chars_of(raw);
    let s = trim_chars(all.as_slice());
    let text = string_of(s.as_slice());
    if s.len() == 0 {
        let mut e = String::new();
        push_text(&mut e, "empty numeric filter");
        return Err(e);
    }
    let n = s.len();
    let mut k: usize = 0;
    while k < n - 1 && !(s[k] == '.' && s[k + 1] == '.')
        invariant
            n == s@.len(),
            n >= 1,
            k <= n,
            first_dots(s@, 0) == first_dots(s@, k as int),
        decreases n - k,
    {
        k += 1;
    }
    if k < n - 1 {
        let left = trim_chars(slice_subrange(s.as_slice(), 0, k));
        let right = trim_chars(slice_subrange(s.as_slice(), k + 2, n));
        let left_op = left.len() > 0 && (left[0] == '=' || left[0] == '>' || left[0] == '<');
        let right_op = right.len() > 0 && (right[0] == '=' || right[0] == '>' || right[0] == '<');
        if left_op || right_op {
            return Err(
                join3(
                    "comparison operators can't be combined with '..' (use '30..40', or '>40'): '",
                    text.as_str(),
                    "'",
                ),
            );
        }
        if left.len() == 0 || right.len() == 0 {
            return Err(
                join3(
                    "'..' requires both bounds, e.g. '30..40' (use '>=30' or '<=40' for one-sided ranges): '",
                    text.as_str(),
                    "'",
                ),
            );
        }
        return Ok(FilterShape::Between(string_of(left.as_slice()), string_of(right.as_slice())));
    }
    proof {
        assert(first_dots(s@, k as int) is None);
    }
    let (op, skip, op_str): (FilterOp, usize, &str) = if n >= 2 && s[0] == '>' && s[1] == '=' {
        (FilterOp::Ge, 2, ">=")
    } else if n >= 2 && s[0] == '<' && s[1] == '=' {
        (FilterOp::Le, 2, "<=")
    } else if n >= 2 && s[0] == '=' && s[1] == '=' {
        (FilterOp::EqEq, 2, "==")
    } else if s[0] == '>' {
        (FilterOp::Gt, 1, ">")
    } else if s[0] == '<' {
        (FilterOp::Lt, 1, "<")
    } else if s[0] == '=' {
        (FilterOp::Eq, 1, "=")
    } else {
        (FilterOp::Bare, 0, "")
    };
    assert(op_of(s@) == (op, skip as int) && op_str@ == op_text(op));
    let rest = trim_chars(slice_subrange(s.as_slice(), skip, n));
    if rest.len() == 0 {
        return Err(join3("missing number after '", op_str, "'"));
    }
    Ok(FilterShape::Single(op, string_of(rest.as_slice())))
}

/// The range of a filter cut as `shape`, from the terms its numbers were encoded as, as
/// `range_spec` says.
pub fn range_from(shape: &FilterShape, first: Option<String>, second: Option<String>) -> (r: Result<NumericRange, String>)
    ensures
        result_view(r) == range_spec(shape@, text_of(first), text_of(second)),
{
    match shape {
        FilterShape::Between(l, rt) => {
            let a = match first {
                Some(a) => a,
                None => {
                    return Err(join3("invalid lower bound '", l.as_str(), "'"));
                },
            };
            let b = match second {
                Some(b) => b,
                None => {
                    return Err(join3("invalid upper bound '", rt.as_str(), "'"));
                },
            };
            if text_before(b.as_str(), a.as_str()) {
                let mut e = join3("empty range: lower '", l.as_str(), "' is greater than upper '");
                push_text(&mut e, rt.as_str());
                push_text(&mut e, "'");
                return Err(e);
            }
            Ok(
                NumericRange {
                    lo: Some(EncodedBound { term: a, inclusive: true }),
                    hi: Some(EncodedBound { term: b, inclusive: true }),
                },
            )
        },
        FilterShape::Single(op, rest) => {
            let t = match first {
                Some(t) => t,
                None => {
                    return Err(join3("invalid number '", rest.as_str(), "'"));
                },
            };
            let range = match op {
                FilterOp::Ge => NumericRange { lo: Some(EncodedBound { term: t, inclusive: true }), hi: None },
                FilterOp::Gt => NumericRange { lo: Some(EncodedBound { term: t, inclusive: false }), hi: None },
                FilterOp::Le => NumericRange { lo: None, hi: Some(EncodedBound { term: t, inclusive: true }) },
                FilterOp::Lt => NumericRange { lo: None, hi: Some(EncodedBound { term: t, inclusive: false }) },
                _ => {
                    let copy = string_of(chars_of(t.as_str()).as_slice());
                    NumericRange {
                        lo: Some(EncodedBound { term: t, inclusive: true }),
                        hi: Some(EncodedBound { term: copy, inclusive: true }),
                    }
                },
            };
            Ok(range)
        },
    }
}

/// Whether `first` and `second` are what `encode` may give for the numbers of `shape`: the
/// upper number is encoded only once the lower one was.
pub open spec fn encoded<F: Fn(&str) -> Option<String>>(
    encode: F,
    shape: ShapeV,
    first: Option<String>,
    second: Option<String>,
) -> bool {
    match shape {
        ShapeV::Between(l, r) => {
            &&& exists|x: &str| x@ == l && #[trigger] encode.ensures((x,), first)
            &&& first is Some ==> exists|y: &str| y@ == r && #[trigger] encode.ensures((y,), second)
            &&& first is None ==> second is None
        },
        ShapeV::Single(_, t) => {
            &&& exists|x: &str| x@ == t && #[trigger] encode.ensures((x,), first)
            &&& second is None
        },
    }
}

/// Parses the filter `raw`, encoding its numbers with `encode` (the encoder of the field's
/// kind of number): the parts as `filter_shape` cuts them, and the range that `range_spec`
/// builds from what `encode` gave for them.
pub fn parse_filter<F: Fn(&str) -> Option<String>>(raw: &str, encode: F) -> (r: Result<NumericRange, String>)
    requires
        forall|x: &str| #[trigger] encode.requires((x,)),
    ensures
        filter_parsed(raw@, encode, result_view(r)),
        filter_shape(raw@) matches Err(m) ==> (r matches Err(e) && e@ == m),
        filter_shape(raw@) matches Ok(shape) ==> exists|first: Option<String>, second: Option<String>|
            #[trigger] encoded(encode, shape, first, second) && result_view(r) == range_spec(
                shape,
                text_of(first),
                text_of(second),
            ),
{
    let shape = match split_filter(raw) {
        Ok(shape) => shape,
        Err(e) => {
            return Err(e);
        },
    };
    let (first, second) = match &shape {
        FilterShape::Between(l, rt) => {
            let a = encode(l.as_str());
            let b = match &a {
                Some(_) => encode(rt.as_str()),
                None => None,
            };
            (a, b)
        },
        FilterShape::Single(_, t) => (encode(t.as_str()), None),
    };
    let ghost f = first;
    let ghost g = second;
    let r = range_from(&shape, first, second);
    assert(encoded(encode, shape@, f, g));
    r
}

/// Whether `p` is a range, or a refusal, that parsing the filter `raw` with `encode` may give:
/// the refusal of its shape, or the range built from what `encode` may give for its numbers.
pub open spec fn filter_parsed<F: Fn(&str) -> Option<String>>(
    raw: Seq<char>,
    encode: F,
    p: Result<(Option<(Seq<char>, bool)>, Option<(Seq<char>, bool)>), Seq<char>>,
) -> bool {
    match filter_shape(raw) {
        Err(m) => p == Err::<(Option<(Seq<char>, bool)>, Option<(Seq<char>, bool)>), Seq<char>>(m),
        Ok(shape) => exists|first: Option<String>, second: Option<String>|
            #[trigger] encoded(encode, shape, first, second) && p == range_spec(shape, text_of(first), text_of(second)),
    }
}

/// The term of the integer written in `s`, as `integer_term` gives it.
pub open spec fn int_term_spec(s: Seq<char>) -> Option<Seq<char>> {
    match parse_i64_spec(trimmed(s)) {
        Some(v) => Some(integer_text(v)),
        None => None,
    }
}

/// The range of the filter `raw` on an integer field: its numbers encoded as integer terms,
/// the upper one only once the lower one was.
pub open spec fn int_filter_spec(raw: Seq<char>) -> Result<
    (Option<(Seq<char>, bool)>, Option<(Seq<char>, bool)>),
    Seq<char>,
> {
    match filter_shape(raw) {
        Err(m) => Err(m),
        Ok(ShapeV::Between(l, r)) => range_spec(
            ShapeV::Between(l, r),
            int_term_spec(l),
            if int_term_spec(l) is Some {
                int_term_spec(r)
            } else {
                None
            },
        ),
        Ok(ShapeV::Single(op, t)) => range_spec(ShapeV::Single(op, t), int_term_spec(t), None),
    }
}

/// Parses a filter on an integer field, as `int_filter_spec` says.
pub fn parse_integer_filter(raw: &str) -> (r: Result<NumericRange, String>)
    ensures
        result_view(r) == int_filter_spec(raw@),
{
    let shape = match split_filter(raw) {
        Ok(shape) => shape,
        Err(e) => {
            return Err(e);
        },
    };
    let (first, second) = match &shape {
        FilterShape::Between(l, rt) => {
            let a = integer_term(l.as_str());
            let b = match &a {
                Some(_) => integer_term(rt.as_str()),
                None => None,
            };
            (a, b)
        },
        FilterShape::Single(_, t) => (integer_term(t.as_str()), None),
    };
    range_from(&shape, first, second)
}

} // verus!
