use corelamo::numbers::{decode_i64, encode_i64, integer_term};
use corelamo::numeric::{
    pack_float_bits, pack_int, packed_in_bounds, unpack_float_bits, unpack_int, Bkd, DocValues, NumericField,
    NumericFields, NumericKind, PackedBound,
};

#[test]
fn encode_i64_is_sixteen_hex_digits_of_the_flipped_sign_bit() {
    assert_eq!(encode_i64(0), "8000000000000000");
    assert_eq!(encode_i64(1), "8000000000000001");
    assert_eq!(encode_i64(-1), "7fffffffffffffff");
    assert_eq!(encode_i64(i64::MIN), "0000000000000000");
    assert_eq!(encode_i64(i64::MAX), "ffffffffffffffff");
    assert_eq!(encode_i64(255), "80000000000000ff");
}

#[test]
fn encoded_terms_sort_as_the_integers() {
    let values = [i64::MIN, -1_000_000, -42, -1, 0, 1, 7, 42, 1_000_000, i64::MAX];
    for a in values {
        for b in values {
            assert_eq!(a < b, encode_i64(a) < encode_i64(b), "{a} {b}");
        }
    }
}

#[test]
fn decode_reverses_encode() {
    for v in [i64::MIN, -5, 0, 5, i64::MAX, 123456789] {
        assert_eq!(decode_i64(&encode_i64(v)), Some(v));
    }
}

#[test]
fn decode_reads_hex_as_from_str_radix_does() {
    assert_eq!(decode_i64("8000000000000000"), Some(0));
    assert_eq!(decode_i64("+8000000000000001"), Some(1));
    assert_eq!(decode_i64("0"), Some(i64::MIN));
    assert_eq!(decode_i64("FFFFFFFFFFFFFFFF"), Some(i64::MAX));
    assert_eq!(decode_i64(""), None);
    assert_eq!(decode_i64("+"), None);
    assert_eq!(decode_i64("-1"), None);
    assert_eq!(decode_i64("xyz"), None);
    assert_eq!(decode_i64("10000000000000000"), None);
}

#[test]
fn integer_term_trims_and_parses() {
    assert_eq!(integer_term(" 42 "), Some(encode_i64(42)));
    assert_eq!(integer_term("-7"), Some(encode_i64(-7)));
    assert_eq!(integer_term("+7"), Some(encode_i64(7)));
    assert_eq!(integer_term("9223372036854775807"), Some(encode_i64(i64::MAX)));
    assert_eq!(integer_term("-9223372036854775808"), Some(encode_i64(i64::MIN)));
    assert_eq!(integer_term("9223372036854775808"), None);
    assert_eq!(integer_term("4.2"), None);
    assert_eq!(integer_term(""), None);
    assert_eq!(integer_term("-"), None);
}

#[test]
fn pack_int_keeps_order_and_round_trips() {
    let values = [i64::MIN, -3, 0, 3, i64::MAX];
    for a in values {
        assert_eq!(unpack_int(pack_int(a)), a);
        for b in values {
            assert_eq!(a < b, pack_int(a) < pack_int(b));
        }
    }
    assert_eq!(pack_int(0), 1u64 << 63);
}

#[test]
fn pack_float_bits_orders_as_floats() {
    let floats = [-1e300f64, -2.5, -0.0, 0.0, 1.0, 2.5, 1e300];
    for w in floats.windows(2) {
        let a = pack_float_bits(w[0].to_bits());
        let b = pack_float_bits(w[1].to_bits());
        assert!(a <= b, "{} {}", w[0], w[1]);
    }
    for f in floats {
        assert_eq!(unpack_float_bits(pack_float_bits(f.to_bits())), f.to_bits());
    }
}

#[test]
fn bounds_are_inclusive_or_not() {
    let lo = Some(PackedBound { value: 10, inclusive: true });
    let hi = Some(PackedBound { value: 20, inclusive: false });
    assert!(packed_in_bounds(10, lo, hi));
    assert!(packed_in_bounds(19, lo, hi));
    assert!(!packed_in_bounds(20, lo, hi));
    assert!(!packed_in_bounds(9, lo, hi));
    assert!(packed_in_bounds(u64::MAX, None, None));
    assert!(PackedBound { value: 5, inclusive: false }.below_lo(5));
    assert!(!PackedBound { value: 5, inclusive: true }.below_lo(5));
    assert!(PackedBound { value: 5, inclusive: false }.past_hi(5));
}

#[test]
fn bkd_from_packed_needs_sorted_points() {
    assert!(Bkd::from_packed(NumericKind::Int, vec![(2, 1), (1, 2)]).is_err());
    let b = Bkd::from_packed(NumericKind::Float, vec![(1, 9), (1, 3), (5, 7)]).unwrap();
    assert_eq!(b.kind(), NumericKind::Float);
    assert_eq!(b.len(), 3);
    assert!(!b.is_empty());
    assert_eq!(b.min_value(), Some(1));
    assert_eq!(b.max_value(), Some(5));
    assert_eq!(b.points(), &[(1, 9), (1, 3), (5, 7)]);
    assert_eq!(
        Bkd::from_packed(NumericKind::Int, vec![(3, 1), (1, 2)]).err(),
        Some("bkd points must be sorted by packed value")
    );
}

#[test]
fn bkd_range_gives_sorted_unique_docs() {
    let b = Bkd::from_packed(
        NumericKind::Int,
        vec![(1, 9), (2, 4), (2, 9), (3, 1), (4, 4), (7, 2)],
    )
    .unwrap();
    let r = b.range_packed(Some(PackedBound { value: 2, inclusive: true }), Some(PackedBound { value: 4, inclusive: true }));
    assert_eq!(r, vec![1, 4, 9]);
    let r = b.range_packed(Some(PackedBound { value: 2, inclusive: false }), Some(PackedBound { value: 4, inclusive: false }));
    assert_eq!(r, vec![1]);
    assert_eq!(b.range_packed(None, None), vec![1, 2, 4, 9]);
    assert_eq!(b.range_packed(Some(PackedBound { value: 8, inclusive: true }), None), Vec::<u64>::new());
    assert!(Bkd::empty().range_packed(None, None).is_empty());
}

#[test]
fn doc_values_find_values_across_blocks() {
    let entries: Vec<(u64, u64)> = (0..1000u64).map(|d| (d * 2, d * 10)).collect();
    let v = DocValues::from_packed(NumericKind::Int, entries).unwrap();
    assert_eq!(v.len(), 1000);
    assert_eq!(v.first_doc(), Some(0));
    assert_eq!(v.last_doc(), Some(1998));
    assert_eq!(v.get_packed(0), Some(0));
    assert_eq!(v.get_packed(512), Some(2560));
    assert_eq!(v.get_packed(1998), Some(9990));
    assert_eq!(v.get_packed(513), None);
    assert_eq!(v.get_packed(5000), None);
    assert!(DocValues::from_packed(NumericKind::Int, vec![(5, 1), (4, 1)]).is_err());
    assert_eq!(DocValues::empty().get_packed(1), None);
}

#[test]
fn numeric_fields_hold_one_field_per_path() {
    let mut f = NumericFields::new();
    assert!(f.is_empty());
    let field = NumericField {
        bkd: Bkd::from_packed(NumericKind::Int, vec![(1, 1), (2, 2)]).unwrap(),
        doc_values: DocValues::from_packed(NumericKind::Int, vec![(1, 1), (2, 2)]).unwrap(),
    };
    f.insert_field(7, field);
    f.insert_field(3, NumericField { bkd: Bkd::empty(), doc_values: DocValues::empty() });
    assert_eq!(f.len(), 2);
    assert!(!f.is_empty());
    assert!(f.field(7).is_some());
    assert!(f.field(8).is_none());
    let paths: Vec<u32> = f.iter().iter().map(|(x, _)| *x).collect();
    assert_eq!(paths, vec![3, 7]);
    assert_eq!(f.range_packed(7, Some(PackedBound { value: 2, inclusive: true }), None), vec![2]);
    assert_eq!(f.range_packed(9, None, None), Vec::<u64>::new());
    assert_eq!(f.get_packed(7, 2), Some(2));
    assert_eq!(f.get_packed(7, 3), None);
    assert_eq!(f.values_packed(7), vec![(1, 1), (2, 2)]);
}
