use corelamo::document::policy::{FieldKind, FieldPolicy, IndexPolicy};
use corelamo::document::registry::FieldRegistry;
use corelamo::filter::{parse_filter, split_filter, EncodedBound, FilterOp, FilterShape, NumericRange};
use corelamo::manifest::{live_segments, manifest_text, text_lines};
use corelamo::numbers::integer_term;
use corelamo::query::{resolve_filter, resolve_filters, resolve_sorts, FieldFilterKind, QueryError, SortOrder, SortRequest};

fn policy() -> IndexPolicy {
    let mut p = IndexPolicy::new(vec![
        FieldPolicy::new("id", FieldKind::Id),
        FieldPolicy::new("title", FieldKind::Text),
        FieldPolicy::new("year", FieldKind::Integer),
        FieldPolicy::new("rating", FieldKind::Float),
    ]);
    p.resolve(FieldRegistry::new());
    p
}

fn req(field: &str, ratio: Option<u8>, order: SortOrder) -> (String, SortRequest) {
    (field.to_string(), SortRequest { ratio, order })
}

fn invalid(r: Result<Option<Vec<corelamo::query::SortField>>, QueryError>) -> String {
    match r {
        Err(QueryError::InvalidData(m)) => m,
        _ => panic!("expected invalid data"),
    }
}

#[test]
fn a_single_sort_field_takes_everything() {
    let p = policy();
    let sorts = resolve_sorts(&[req("year", None, SortOrder::Desc)], &p).unwrap().unwrap();
    assert_eq!(sorts.len(), 1);
    assert_eq!(sorts[0].ratio, 100);
    assert!(!sorts[0].is_float);
    assert_eq!(sorts[0].order, SortOrder::Desc);
    assert_eq!(Some(sorts[0].xpath), p.xpath_of("year"));
    assert!(resolve_sorts(&[], &p).unwrap().is_none());
}

#[test]
fn several_sort_fields_share_the_ranking() {
    let p = policy();
    let sorts = resolve_sorts(
        &[req("year", Some(30), SortOrder::Asc), req("rating", Some(50), SortOrder::Desc)],
        &p,
    )
    .unwrap()
    .unwrap();
    assert_eq!(sorts.iter().map(|s| s.ratio).collect::<Vec<_>>(), vec![30, 50]);
    assert!(sorts[1].is_float);
}

#[test]
fn sort_requests_are_refused_in_order() {
    let p = policy();
    match resolve_sorts(&[req("nope", None, SortOrder::Asc)], &p) {
        Err(QueryError::PathNotIndexed(f)) => assert_eq!(f, "nope"),
        _ => panic!("unknown field"),
    }
    assert_eq!(
        invalid(resolve_sorts(&[req("title", None, SortOrder::Asc)], &p)),
        "sorting by 'title' is not supported yet (only numeric fields)"
    );
    assert_eq!(
        invalid(resolve_sorts(&[req("year", Some(10), SortOrder::Asc), req("rating", None, SortOrder::Asc)], &p)),
        "'ratio' is required for sort field 'rating' when sorting by more than one field"
    );
    assert_eq!(
        invalid(resolve_sorts(&[req("year", Some(101), SortOrder::Asc)], &p)),
        "sort ratio for 'year' must be between 0 and 100"
    );
    assert_eq!(
        invalid(resolve_sorts(&[req("year", Some(60), SortOrder::Asc), req("rating", Some(41), SortOrder::Asc)], &p)),
        "sort ratios must add up to at most 100 (the rest is relevance)"
    );
}

fn bound(term: &str, inclusive: bool) -> Option<EncodedBound> {
    Some(EncodedBound { term: term.to_string(), inclusive })
}

#[test]
fn filters_become_ranges_of_terms() {
    let t30 = integer_term("30").unwrap();
    let t40 = integer_term("40").unwrap();
    assert_eq!(
        parse_filter(" 30 .. 40 ", integer_term),
        Ok(NumericRange { lo: bound(&t30, true), hi: bound(&t40, true) })
    );
    assert_eq!(parse_filter(">=30", integer_term), Ok(NumericRange { lo: bound(&t30, true), hi: None }));
    assert_eq!(parse_filter("> 30", integer_term), Ok(NumericRange { lo: bound(&t30, false), hi: None }));
    assert_eq!(parse_filter("<=40", integer_term), Ok(NumericRange { lo: None, hi: bound(&t40, true) }));
    assert_eq!(parse_filter("<40", integer_term), Ok(NumericRange { lo: None, hi: bound(&t40, false) }));
    for f in ["=30", "==30", "30"] {
        assert_eq!(parse_filter(f, integer_term), Ok(NumericRange { lo: bound(&t30, true), hi: bound(&t30, true) }));
    }
}

#[test]
fn filters_report_what_is_wrong() {
    assert_eq!(parse_filter("   ", integer_term), Err("empty numeric filter".to_string()));
    assert_eq!(
        parse_filter(">3..4", integer_term),
        Err("comparison operators can't be combined with '..' (use '30..40', or '>40'): '>3..4'".to_string())
    );
    assert_eq!(
        parse_filter("3..", integer_term),
        Err("'..' requires both bounds, e.g. '30..40' (use '>=30' or '<=40' for one-sided ranges): '3..'".to_string())
    );
    assert_eq!(parse_filter(">=", integer_term), Err("missing number after '>='".to_string()));
    assert_eq!(parse_filter("x..4", integer_term), Err("invalid lower bound 'x'".to_string()));
    assert_eq!(parse_filter("1..y", integer_term), Err("invalid upper bound 'y'".to_string()));
    assert_eq!(parse_filter("<abc", integer_term), Err("invalid number 'abc'".to_string()));
    assert_eq!(
        parse_filter("40..30", integer_term),
        Err("empty range: lower '40' is greater than upper '30'".to_string())
    );
}

#[test]
fn filters_split_at_the_first_two_dots() {
    match split_filter("1...5").unwrap() {
        FilterShape::Between(l, r) => {
            assert_eq!(l, "1");
            assert_eq!(r, ".5");
        }
        _ => panic!("a range"),
    }
    match split_filter(" == 7 ").unwrap() {
        FilterShape::Single(op, t) => {
            assert_eq!(op, FilterOp::EqEq);
            assert_eq!(t, "7");
        }
        _ => panic!("a comparison"),
    }
}

#[test]
fn manifest_lines_replay() {
    let text = "segment-1.idx\nsegment-2.idx\r\nsegment-3.idx\nsegment-1.idx.del\nsegment-4.idx";
    assert_eq!(text_lines("a\n\nb\n"), vec!["a", "", "b"]);
    assert_eq!(text_lines("a\r"), vec!["a\r"]);
    assert!(text_lines("").is_empty());
    assert_eq!(live_segments(text), vec!["segment-2.idx", "segment-3.idx", "segment-4.idx"]);
    assert_eq!(live_segments("a\na\na.del\nb"), vec!["b"]);
    assert_eq!(live_segments(".del\n"), Vec::<String>::new());
}

#[test]
fn manifest_text_lists_one_name_per_line() {
    let names = vec!["s1.idx".to_string(), "s2.idx".to_string()];
    let text = manifest_text(&names);
    assert_eq!(text, "s1.idx\ns2.idx\n");
    assert_eq!(live_segments(&text), names);
}

fn float_enc(s: &str) -> Option<String> {
    // a stand-in float encoder for the tests: the trimmed text, where it is not empty
    let t = s.trim();
    if t.is_empty() || t.parse::<f64>().is_err() { None } else { Some(t.to_string()) }
}

#[test]
fn resolve_filter_per_kind() {
    let p = policy();
    let title_id = p.xpath_of("title").unwrap();
    let year_id = p.xpath_of("year").unwrap();
    match resolve_filter(&"title".to_string(), &"rust db".to_string(), &p, float_enc) {
        Ok(Some(f)) => {
            assert_eq!(f.xpath, title_id);
            assert!(matches!(f.kind, FieldFilterKind::Text(ref t) if t == "rust db"));
        }
        _ => panic!("expected a text filter"),
    }
    match resolve_filter(&"year".to_string(), &"1990..2000".to_string(), &p, float_enc) {
        Ok(Some(f)) => {
            assert_eq!(f.xpath, year_id);
            match f.kind {
                FieldFilterKind::Range { lo, hi } => {
                    assert_eq!(lo, Some(EncodedBound { term: integer_term("1990").unwrap(), inclusive: true }));
                    assert_eq!(hi, Some(EncodedBound { term: integer_term("2000").unwrap(), inclusive: true }));
                }
                _ => panic!("expected a range"),
            }
        }
        _ => panic!("expected a range filter"),
    }
    match resolve_filter(&"rating".to_string(), &">4.5".to_string(), &p, float_enc) {
        Ok(Some(f)) => match f.kind {
            FieldFilterKind::Range { lo, hi } => {
                assert_eq!(lo, Some(EncodedBound { term: "4.5".to_string(), inclusive: false }));
                assert_eq!(hi, None);
            }
            _ => panic!("expected a range"),
        },
        _ => panic!("expected a range filter"),
    }
    assert!(matches!(resolve_filter(&"year".to_string(), &"   ".to_string(), &p, float_enc), Ok(None)));
    assert!(matches!(
        resolve_filter(&"nope".to_string(), &"x".to_string(), &p, float_enc),
        Err(QueryError::PathNotIndexed(ref f)) if f == "nope"
    ));
    assert!(matches!(
        resolve_filter(&"id".to_string(), &"x".to_string(), &p, float_enc),
        Err(QueryError::PathNotIndexed(ref f)) if f == "id"
    ));
    match resolve_filter(&"year".to_string(), &"abc".to_string(), &p, float_enc) {
        Err(QueryError::InvalidData(m)) => {
            assert_eq!(m, "invalid filter 'abc' on numeric field 'year': invalid number 'abc'")
        }
        _ => panic!("expected invalid data"),
    }
}

#[test]
fn resolve_filters_in_order_and_first_refusal() {
    let p = policy();
    assert!(matches!(resolve_filters(&None, &p, float_enc), Ok(None)));
    let fs = Some(vec![
        ("year".to_string(), ">=2000".to_string()),
        ("title".to_string(), " ".to_string()),
        ("title".to_string(), "rust".to_string()),
    ]);
    match resolve_filters(&fs, &p, float_enc) {
        Ok(Some(v)) => {
            assert_eq!(v.len(), 2);
            assert_eq!(v[0].0, "year");
            assert_eq!(v[1].0, "title");
        }
        _ => panic!("expected filters"),
    }
    let bad = Some(vec![
        ("year".to_string(), "1..x".to_string()),
        ("nope".to_string(), "x".to_string()),
    ]);
    match resolve_filters(&bad, &p, float_enc) {
        Err(QueryError::InvalidData(m)) => {
            assert_eq!(m, "invalid filter '1..x' on numeric field 'year': invalid upper bound 'x'")
        }
        _ => panic!("expected invalid data"),
    }
}
