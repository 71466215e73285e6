use corelamo::document::indexed::{IndexedDocument, NumericPoint};
use corelamo::document::{AllFields, FieldKind, WeightInterval};
use corelamo::numeric::columns::{parse_integer, parse_numeric_range, NumericColumn, NumericColumns, NumericRange};
use corelamo::numeric::points::{in_bounds, pack, unpack, NumericBound, NumericPoints, NumericValue};
use corelamo::numeric::{pack_float_bits, pack_int, Bkd, DocValues, NumericFields, NumericKind};
use corelamo::sorting::sort_pairs;

fn int_bound(v: i64, inclusive: bool) -> Option<NumericBound> {
    Some(NumericBound { value: NumericValue::Int(v), inclusive })
}

fn float_bound(v: f64, inclusive: bool) -> Option<NumericBound> {
    Some(NumericBound { value: NumericValue::Float(v.to_bits()), inclusive })
}

#[test]
fn indexed_document_collects_parts_and_points_in_order() {
    let d = IndexedDocument::new(7)
        .with_part(1, "hello world".to_string(), WeightInterval::title())
        .with_exact(2, "ID-42".to_string(), WeightInterval::text())
        .with_numeric_point(3, NumericKind::Int, pack_int(-5));
    assert_eq!(d.doc_id, 7);
    assert_eq!(d.parts.len(), 2);
    assert_eq!(d.parts[0].xpath, 1);
    assert_eq!(d.parts[0].text, "hello world");
    assert!(!d.parts[0].exact);
    assert_eq!(d.parts[1].xpath, 2);
    assert!(d.parts[1].exact);
    assert_eq!(d.numeric_points.len(), 1);
    let p: NumericPoint = d.numeric_points[0];
    assert_eq!(p.xpath, 3);
    assert_eq!(p.kind, NumericKind::Int);
    assert_eq!(p.packed, pack_int(-5));
}

#[test]
fn loaded_fields_keep_their_order() {
    let f = AllFields::loaded(vec![
        ("title".to_string(), FieldKind::Text),
        ("price".to_string(), FieldKind::Float),
    ]);
    assert_eq!(f.len(), 2);
    assert!(!f.is_empty());
    assert_eq!(f.get_fields()[0], ("title".to_string(), FieldKind::Text));
    assert_eq!(f.get_fields()[1], ("price".to_string(), FieldKind::Float));
    assert!(AllFields::loaded(Vec::new()).is_empty());
}

#[test]
fn sort_pairs_orders_by_first_then_second_and_keeps_duplicates() {
    let v = [(3, 1), (1, 9), (3, 0), (1, 9), (2, 5), (0, 0)];
    assert_eq!(sort_pairs(&v), vec![(0, 0), (1, 9), (1, 9), (2, 5), (3, 0), (3, 1)]);
    assert_eq!(sort_pairs(&[]), Vec::<(u64, u64)>::new());
    assert_eq!(sort_pairs(&[(5, 5)]), vec![(5, 5)]);
}

#[test]
fn pack_and_unpack_are_inverse_for_both_kinds() {
    for v in [i64::MIN, -1, 0, 1, 99, i64::MAX] {
        let n = NumericValue::Int(v);
        assert_eq!(pack(n), pack_int(v));
        assert_eq!(unpack(pack(n), NumericKind::Int), n);
        assert_eq!(n.kind(), NumericKind::Int);
    }
    for f in [-1.5f64, -0.0, 0.0, 2.25, f64::INFINITY, f64::NEG_INFINITY] {
        let n = NumericValue::Float(f.to_bits());
        assert_eq!(pack(n), pack_float_bits(f.to_bits()));
        assert_eq!(unpack(pack(n), NumericKind::Float), n);
        assert_eq!(n.kind(), NumericKind::Float);
    }
    assert_eq!(pack(NumericValue::Int(0)), 0x8000_0000_0000_0000);
    assert_eq!(pack(NumericValue::Int(-1)), 0x7fff_ffff_ffff_ffff);
}

#[test]
fn packed_floats_order_as_the_floats() {
    let fs = [f64::NEG_INFINITY, -10.0, -1.5, -0.0, 0.0, 1e-300, 2.25, 1e300, f64::INFINITY];
    for w in fs.windows(2) {
        assert!(pack_float_bits(w[0].to_bits()) < pack_float_bits(w[1].to_bits()), "{} {}", w[0], w[1]);
    }
}

#[test]
fn value_bounds_put_integers_before_floats() {
    let i = NumericValue::Int(1_000_000);
    let f = NumericValue::Float((-1e9f64).to_bits());
    // any integer lies below any float bound, any float above any integer bound
    assert!(in_bounds(i, None, float_bound(-1e9, false)));
    assert!(in_bounds(f, int_bound(i64::MAX, false), None));
    assert!(!in_bounds(f, None, int_bound(0, true)));
    assert!(in_bounds(NumericValue::Int(5), int_bound(5, true), int_bound(5, true)));
    assert!(!in_bounds(NumericValue::Int(5), int_bound(5, false), None));
    assert!(!in_bounds(NumericValue::Int(5), None, int_bound(5, false)));
    assert!(in_bounds(NumericValue::Float(2.5f64.to_bits()), float_bound(2.0, false), float_bound(3.0, false)));
}

#[test]
fn bkd_build_sorts_packed_points_by_value_then_document() {
    let pts = [(4, NumericValue::Int(10)), (1, NumericValue::Int(-3)), (2, NumericValue::Int(10)), (9, NumericValue::Int(0))];
    let b = Bkd::build(NumericKind::Int, &pts);
    assert_eq!(b.kind(), NumericKind::Int);
    assert_eq!(b.len(), 4);
    assert_eq!(
        b.points().to_vec(),
        vec![(pack_int(-3), 1), (pack_int(0), 9), (pack_int(10), 2), (pack_int(10), 4)]
    );
    let e = Bkd::from_points(&[]);
    assert!(e.is_empty());
    assert_eq!(e.kind(), NumericKind::Int);
    let fl = Bkd::from_points(&[(3, NumericValue::Float(1.5f64.to_bits()))]);
    assert_eq!(fl.kind(), NumericKind::Float);
    assert_eq!(fl.points().to_vec(), vec![(pack_float_bits(1.5f64.to_bits()), 3)]);
}

#[test]
fn doc_values_build_orders_entries_by_document() {
    let pts = [(4, NumericValue::Int(10)), (1, NumericValue::Int(-3)), (2, NumericValue::Int(7))];
    let d = DocValues::build(NumericKind::Int, &pts);
    assert_eq!(d.entries().to_vec(), vec![(1, pack_int(-3)), (2, pack_int(7)), (4, pack_int(10))]);
    assert_eq!(d.get(2), Some(NumericValue::Int(7)));
    assert_eq!(d.get_packed(2), Some(pack_int(7)));
    assert_eq!(d.get(3), None);
    assert_eq!(d.values_for(&[4, 3, 1]), vec![(4, NumericValue::Int(10)), (1, NumericValue::Int(-3))]);
    let f = DocValues::from_points(&[(8, NumericValue::Float(0.5f64.to_bits()))]);
    assert_eq!(f.kind(), NumericKind::Float);
}

#[test]
fn numeric_fields_from_points_builds_one_field_per_path() {
    let fields = NumericFields::from_points(&[
        (5, vec![(1, NumericValue::Int(3)), (2, NumericValue::Int(1))]),
        (2, vec![(7, NumericValue::Float(2.0f64.to_bits()))]),
    ]);
    assert_eq!(fields.len(), 3);
    assert_eq!(fields.iter().len(), 2);
    assert_eq!(fields.get(5, 1), Some(NumericValue::Int(3)));
    assert_eq!(fields.get_packed(5, 2), Some(pack_int(1)));
    assert_eq!(fields.get(2, 7), Some(NumericValue::Float(2.0f64.to_bits())));
    assert_eq!(fields.values(5), vec![(1, NumericValue::Int(3)), (2, NumericValue::Int(1))]);
    assert_eq!(fields.range(5, int_bound(2, true), None), vec![1]);
    assert_eq!(fields.range(5, int_bound(1, true), int_bound(3, true)), vec![1, 2]);
    assert_eq!(fields.get(3, 1), None);
    assert!(fields.field(3).is_none());
}

#[test]
fn numeric_points_insert_get_values_range() {
    let mut p = NumericPoints::new();
    assert!(p.is_empty());
    assert_eq!(p.len(), 0);
    p.insert(1, NumericValue::Int(30), 10);
    p.insert(1, NumericValue::Int(10), 11);
    p.insert(2, NumericValue::Float(1.5f64.to_bits()), 10);
    p.insert(1, NumericValue::Int(20), 12);
    assert!(!p.is_empty());
    assert_eq!(p.len(), 4);
    assert_eq!(p.get(1, 11), Some(NumericValue::Int(10)));
    assert_eq!(p.get(2, 10), Some(NumericValue::Float(1.5f64.to_bits())));
    assert_eq!(p.get(2, 11), None);
    assert_eq!(p.get(3, 10), None);
    assert_eq!(
        p.values(1),
        vec![(10, NumericValue::Int(30)), (11, NumericValue::Int(10)), (12, NumericValue::Int(20))]
    );
    assert_eq!(p.values(9), Vec::new());
    assert_eq!(p.range(1, int_bound(15, true), int_bound(30, false)), vec![12]);
    assert_eq!(p.range(1, None, None), vec![10, 11, 12]);
    assert_eq!(p.range(1, int_bound(30, true), None), vec![10]);
    assert_eq!(p.range(2, float_bound(1.0, true), float_bound(2.0, true)), vec![10]);
    assert_eq!(p.range(2, None, int_bound(100, true)), Vec::<u64>::new());
    let built = p.build();
    assert_eq!(built.len(), 4);
    assert_eq!(built.iter().len(), 2);
    assert_eq!(built.get(1, 12), Some(NumericValue::Int(20)));
    assert_eq!(built.range(1, None, None).len(), 3);
}

#[test]
fn bkd_range_packs_the_bounds() {
    let pts = [(4, NumericValue::Int(10)), (1, NumericValue::Int(-3)), (2, NumericValue::Int(10)), (9, NumericValue::Int(0))];
    let b = Bkd::build(NumericKind::Int, &pts);
    assert_eq!(b.range(int_bound(0, true), int_bound(10, true)), vec![2, 4, 9]);
    assert_eq!(b.range(int_bound(0, false), None), vec![2, 4]);
    assert_eq!(b.range(None, int_bound(0, false)), vec![1]);
    assert_eq!(b.range(None, None), vec![1, 2, 4, 9]);
}

#[test]
fn parse_integer_trims_and_refuses_what_is_no_i64() {
    assert_eq!(parse_integer(" 42 "), Some(NumericValue::Int(42)));
    assert_eq!(parse_integer("-7"), Some(NumericValue::Int(-7)));
    assert_eq!(parse_integer("+7"), Some(NumericValue::Int(7)));
    assert_eq!(parse_integer("9223372036854775808"), None);
    assert_eq!(parse_integer("4.5"), None);
    assert_eq!(parse_integer(""), None);
}

fn closed(v: i64) -> Option<NumericBound> {
    int_bound(v, true)
}

#[test]
fn parse_numeric_range_reads_every_form() {
    let p = |s: &str| parse_integer(s);
    assert_eq!(parse_numeric_range("30..40", p), Ok(NumericRange { lo: closed(30), hi: closed(40) }));
    assert_eq!(parse_numeric_range(" 30 .. 40 ", p), Ok(NumericRange { lo: closed(30), hi: closed(40) }));
    assert_eq!(parse_numeric_range(">=5", p), Ok(NumericRange { lo: closed(5), hi: None }));
    assert_eq!(parse_numeric_range(">5", p), Ok(NumericRange { lo: int_bound(5, false), hi: None }));
    assert_eq!(parse_numeric_range("<=5", p), Ok(NumericRange { lo: None, hi: closed(5) }));
    assert_eq!(parse_numeric_range("< 5", p), Ok(NumericRange { lo: None, hi: int_bound(5, false) }));
    assert_eq!(parse_numeric_range("=5", p), Ok(NumericRange { lo: closed(5), hi: closed(5) }));
    assert_eq!(parse_numeric_range("==5", p), Ok(NumericRange { lo: closed(5), hi: closed(5) }));
    assert_eq!(parse_numeric_range("5", p), Ok(NumericRange { lo: closed(5), hi: closed(5) }));
    assert_eq!(parse_numeric_range("40..40", p), Ok(NumericRange { lo: closed(40), hi: closed(40) }));
}

#[test]
fn parse_numeric_range_errors() {
    let p = |s: &str| parse_integer(s);
    assert_eq!(parse_numeric_range("  ", p), Err("empty numeric filter".to_string()));
    assert_eq!(
        parse_numeric_range("40..30", p),
        Err("empty range: lower '40' is greater than upper '30'".to_string())
    );
    assert_eq!(parse_numeric_range("x..30", p), Err("invalid lower bound 'x'".to_string()));
    assert_eq!(parse_numeric_range("1..y", p), Err("invalid upper bound 'y'".to_string()));
    assert_eq!(parse_numeric_range(">abc", p), Err("invalid number 'abc'".to_string()));
    assert_eq!(parse_numeric_range(">=", p), Err("missing number after '>='".to_string()));
    assert_eq!(
        parse_numeric_range("30..", p),
        Err("'..' requires both bounds, e.g. '30..40' (use '>=30' or '<=40' for one-sided ranges): '30..'".to_string())
    );
    assert_eq!(
        parse_numeric_range(">30..40", p),
        Err("comparison operators can't be combined with '..' (use '30..40', or '>40'): '>30..40'".to_string())
    );
}

#[test]
fn numeric_column_groups_documents_by_value() {
    let mut c = NumericColumn::new();
    assert!(c.is_empty());
    c.insert(NumericValue::Int(5), 3);
    c.insert(NumericValue::Int(1), 7);
    c.insert(NumericValue::Int(5), 1);
    c.insert(NumericValue::Int(5), 3);
    c.insert(NumericValue::Int(9), 2);
    assert!(!c.is_empty());
    assert_eq!(c.len(), 4);
    assert_eq!(
        c.entries(),
        vec![
            (NumericValue::Int(1), 7),
            (NumericValue::Int(5), 1),
            (NumericValue::Int(5), 3),
            (NumericValue::Int(9), 2)
        ]
    );
    assert_eq!(c.range(None, None), vec![1, 2, 3, 7]);
    assert_eq!(c.range(closed(5), None), vec![1, 2, 3]);
    assert_eq!(c.range(int_bound(5, false), None), vec![2]);
    assert_eq!(c.range(None, int_bound(9, false)), vec![1, 3, 7]);
    c.insert(NumericValue::Int(9), 1);
    assert_eq!(c.range(closed(5), None), vec![1, 2, 3]);
    assert_eq!(c.range(closed(2), closed(4)), Vec::<u64>::new());
}

#[test]
fn numeric_columns_keep_one_column_per_path() {
    let mut cs = NumericColumns::new();
    assert!(cs.is_empty());
    cs.insert(4, NumericValue::Int(10), 1);
    cs.insert(2, NumericValue::Float(1.5f64.to_bits()), 1);
    cs.insert(4, NumericValue::Int(3), 2);
    assert!(!cs.is_empty());
    assert_eq!(cs.len(), 3);
    assert_eq!(cs.xpaths(), vec![2, 4]);
    assert_eq!(cs.iter().len(), 2);
    assert_eq!(cs.iter()[1].0, 4);
    assert_eq!(cs.iter()[1].1.len(), 2);
    assert_eq!(cs.range(4, None, None), vec![1, 2]);
    assert_eq!(cs.range(4, closed(5), None), vec![1]);
    assert_eq!(cs.range(7, None, None), Vec::<u64>::new());
    assert!(cs.column(2).is_some());
    assert!(cs.column(3).is_none());
}
