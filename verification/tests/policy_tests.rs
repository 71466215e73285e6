use corelamo::document::policy::{FieldDefaults, RawFieldPolicy};
use corelamo::document::{AllFields, FieldKind, FieldPolicy, FieldRegistry, IndexPolicy, PolicyError, WeightInterval};

#[test]
fn weight_intervals() {
    assert_eq!(WeightInterval::title(), WeightInterval { min: 65, max: 90 });
    assert_eq!(WeightInterval::text(), WeightInterval { min: 1, max: 75 });
    assert_eq!(WeightInterval::default(), WeightInterval { min: 0, max: 100 });
    assert_eq!(WeightInterval::new(3, 4), WeightInterval { min: 3, max: 4 });
}

#[test]
fn field_defaults_follow_the_kind() {
    let t = FieldPolicy::new("title", FieldKind::Text);
    assert!(t.searchable() && t.list() && !t.exact());
    assert_eq!(t.weight(), WeightInterval { min: 1, max: 75 });
    assert_eq!(t.stemming(), None);
    let id = FieldPolicy::new("id", FieldKind::IdAuto);
    assert!(!id.searchable() && id.list() && id.exact());
    let n = FieldPolicy::new("year", FieldKind::Integer);
    assert!(n.has_column() && !n.has_exact_index());
    let none = FieldPolicy::new("raw", FieldKind::Unindexed);
    assert!(!none.list() && !none.searchable());
}

#[test]
fn raw_policy_keeps_what_it_says() {
    let f = FieldPolicy::from_raw(RawFieldPolicy {
        name: "body".to_string(),
        kind: FieldKind::Text,
        searchable: Some(false),
        list: None,
        weight: Some(WeightInterval { min: 2, max: 3 }),
        stemming: Some("english".to_string()),
        exact: Some(true),
    });
    assert!(!f.searchable());
    assert!(f.list());
    assert_eq!(f.weight(), WeightInterval { min: 2, max: 3 });
    assert_eq!(f.stemming(), Some("english"));
    assert!(f.has_exact_index());
}

#[test]
fn kind_predicates_and_labels() {
    assert!(FieldKind::Integer.is_numeric() && FieldKind::Float.is_numeric());
    assert!(!FieldKind::Date.is_numeric() && FieldKind::Date.has_column());
    assert!(!FieldKind::Text.has_column());
    assert_eq!(FieldKind::IdAuto.label(), "id");
    assert_eq!(FieldKind::Unindexed.label(), "none");
    assert_eq!(FieldKind::Integer.label(), "integer");
    let d: FieldDefaults = FieldKind::Text.defaults();
    assert!(d.searchable);
}

#[test]
fn validate_value_by_kind() {
    assert!(FieldKind::Integer.validate_value(" 12 ", false).is_ok());
    assert_eq!(
        FieldKind::Integer.validate_value(" 1x ", false),
        Err("expected integer, got '1x'".to_string())
    );
    assert!(FieldKind::Float.validate_value("1.5", true).is_ok());
    assert_eq!(FieldKind::Float.validate_value("nan", false), Err("expected float, got 'nan'".to_string()));
    assert!(FieldKind::Text.validate_value("anything", false).is_ok());
}

#[test]
fn validate_reports_the_first_problem() {
    let ok = IndexPolicy::default_document();
    assert!(ok.validate().is_ok());
    let dup = IndexPolicy::new(vec![
        FieldPolicy::new("id", FieldKind::Id),
        FieldPolicy::new("a", FieldKind::Text),
        FieldPolicy::new("a", FieldKind::Text),
    ]);
    assert!(matches!(dup.validate(), Err(PolicyError::DuplicateField(n)) if n == "a"));
    let mut bad = FieldPolicy::new("b", FieldKind::Text);
    bad.weight = WeightInterval { min: 9, max: 1 };
    let weight = IndexPolicy::new(vec![FieldPolicy::new("id", FieldKind::Id), bad]);
    assert!(matches!(weight.validate(), Err(PolicyError::InvalidWeight(n)) if n == "b"));
    let none = IndexPolicy::new(vec![FieldPolicy::new("a", FieldKind::Text)]);
    assert!(matches!(none.validate(), Err(PolicyError::IdFieldCount(0))));
    let two = IndexPolicy::new(vec![FieldPolicy::new("a", FieldKind::Id), FieldPolicy::new("b", FieldKind::IdAuto)]);
    assert!(matches!(two.validate(), Err(PolicyError::IdFieldCount(2))));
}

#[test]
fn default_document_and_lookups() {
    let p = IndexPolicy::default_document();
    assert_eq!(p.fields.len(), 3);
    assert_eq!(p.fields[1].weight, WeightInterval { min: 65, max: 90 });
    assert_eq!(p.fields[2].stemming(), Some("english"));
    assert_eq!(p.id_field().map(|f| f.name.as_str()), Some("id"));
    assert_eq!(p.indexed_fields().len(), 3);
    let q = IndexPolicy::new(vec![FieldPolicy::new("a", FieldKind::Unindexed)]);
    assert!(q.id_field().is_none());
    assert!(q.indexed_fields().is_empty());
}

#[test]
fn resolve_registers_every_field_once() {
    let mut p = IndexPolicy::new(vec![
        FieldPolicy::new("id", FieldKind::Id),
        FieldPolicy {
            exact: true,
            ..FieldPolicy::new("title", FieldKind::Text)
        },
        FieldPolicy::new("year", FieldKind::Integer),
    ]);
    assert!(p.resolve(FieldRegistry::new()));
    assert_eq!(p.xpath_of("id"), Some(1));
    assert_eq!(p.xpath_of("title"), Some(2));
    assert_eq!(p.exact_xpath_of("title"), Some(3));
    assert_eq!(p.xpath_of("year"), Some(4));
    assert_eq!(p.xpath_of("missing"), None);
    assert_eq!(p.searchable_xpaths(), vec![1, 2]);
    assert_eq!(p.fields[1].xpath(&p), 2);
    assert_eq!(p.fields[1].exact_xpath(&p), Some(3));
    assert_eq!(p.fields[0].exact_xpath(&p), None);
    let again = p.field_registry().clone();
    assert!(!p.resolve(again));
    assert_eq!(p.xpath_of("year"), Some(4));
}

#[test]
fn registry_hands_out_fresh_ids() {
    let mut r = FieldRegistry::new();
    assert_eq!(r.resolve("a"), 1);
    assert_eq!(r.resolve("b"), 2);
    assert_eq!(r.resolve("a"), 1);
    assert_eq!(r.resolve_exact("a"), 3);
    assert_eq!(r.resolve_exact("a"), 3);
    assert_eq!(r.get("b"), Some(2));
    assert_eq!(r.get_exact("b"), None);
    assert_eq!(r.len(), 3);
    let loaded = FieldRegistry::loaded(1, vec![("x".to_string(), 9)], vec![("y".to_string(), 4)]);
    assert_eq!(loaded.next_id, 10);
}

#[test]
fn all_fields_records_each_path_once() {
    let policy = IndexPolicy::new(vec![FieldPolicy::new("title", FieldKind::Text)]);
    let mut all = AllFields::new();
    assert!(all.is_empty());
    all.record_fields(&["title".to_string(), "other".to_string(), "title".to_string()], &policy);
    assert_eq!(all.len(), 2);
    let got: Vec<(String, FieldKind)> = all.get_fields().clone();
    assert_eq!(got, vec![("title".to_string(), FieldKind::Text), ("other".to_string(), FieldKind::Unindexed)]);
}
