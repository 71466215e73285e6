use vstd::prelude::*;

use crate::document::registry::FieldRegistry;
use crate::text::{chars_of, parse_i64, parse_i64_spec, push_text, string_of, text_eq, trim_chars, trimmed};
use crate::types::XPathId;

verus! {

broadcast use vstd::string::group_string_axioms;

/// The range a field's relevance weight may take.
#[derive(Debug, Clone, Copy, PartialEq, Eq, Structural)]
pub struct WeightInterval {
    pub min: u16,
    pub max: u16,
}

impl WeightInterval {
    /// The weights of a title: 65 to 90.
    pub fn title() -> (r: Self)
        ensures
            r == (WeightInterval { min: 65, max: 90 }),
    {
        WeightInterval { min: 65, max: 90 }
    }

    /// The weights of body text: 1 to 75.
    pub fn text() -> (r: Self)
        ensures
            r == (WeightInterval { min: 1, max: 75 }),
    {
        WeightInterval { min: 1, max: 75 }
    }

    /// The interval from `min` to `max`; `min` may not exceed `max`.
    pub fn new(min: u16, max: u16) -> (r: Self)
        requires
            min <= max,
        ensures
            r.min == min,
            r.max == max,
    {
        WeightInterval { min, max }
    }
}

impl Default for WeightInterval {
    /// The full range of weights: 0 to 100.
    fn default() -> (r: Self)
        ensures
            r == (WeightInterval { min: 0, max: 100 }),
    {
        WeightInterval { min: 0, max: 100 }
    }
}

/// What a field of a document holds, and so how it is indexed.
#[derive(Debug, Clone, Copy, PartialEq, Eq, Structural)]
pub enum FieldKind {
    Unindexed,
    Text,
    Integer,
    Float,
    Date,
    Id,
    IdAuto,
}

/// How a field is indexed unless its policy says otherwise.
#[derive(Debug, Clone, Copy)]
pub struct FieldDefaults {
    pub searchable: bool,
    pub list: bool,
    pub weight: WeightInterval,
    pub exact: bool,
}

/// The defaults of each kind of field.
pub open spec fn kind_defaults(kind: FieldKind) -> FieldDefaults {
    match kind {
        FieldKind::Text => FieldDefaults {
            searchable: true,
            list: true,
            weight: WeightInterval { min: 1, max: 75 },
            exact: false,
        },
        FieldKind::Id => FieldDefaults {
            searchable: true,
            list: true,
            weight: WeightInterval { min: 0, max: 100 },
            exact: true,
        },
        FieldKind::IdAuto => FieldDefaults {
            searchable: false,
            list: true,
            weight: WeightInterval { min: 0, max: 100 },
            exact: true,
        },
        FieldKind::Integer | FieldKind::Float | FieldKind::Date => FieldDefaults {
            searchable: false,
            list: true,
            weight: WeightInterval { min: 0, max: 100 },
            exact: true,
        },
        FieldKind::Unindexed => FieldDefaults {
            searchable: false,
            list: false,
            weight: WeightInterval { min: 0, max: 100 },
            exact: false,
        },
    }
}

/// By default a field is searched as text exactly when it is a text field or the id field
/// that the user gives: generated ids, numbers, dates and unindexed fields are not; every
/// field searched by default is of a kind that can be searched as text, and is listed.
pub proof fn lemma_default_searchable(kind: FieldKind)
    ensures
        kind_defaults(kind).searchable <==> (kind == FieldKind::Text || kind == FieldKind::Id),
        kind_defaults(kind).searchable ==> searchable_kind(kind) && kind_defaults(kind).list,
        kind_defaults(kind).list <==> kind != FieldKind::Unindexed,
        kind_defaults(kind).exact <==> (kind != FieldKind::Text && kind != FieldKind::Unindexed),
        kind_defaults(kind).weight.min <= kind_defaults(kind).weight.max,
        kind == FieldKind::Text ==> kind_defaults(kind).weight == (WeightInterval { min: 1, max: 75 }),
        kind != FieldKind::Text ==> kind_defaults(kind).weight == (WeightInterval { min: 0, max: 100 }),
{
}

/// The name of each kind of field in messages.
pub open spec fn kind_label(kind: FieldKind) -> Seq<char> {
    match kind {
        FieldKind::Unindexed => "none"@,
        FieldKind::Text => "text"@,
        FieldKind::Integer => "integer"@,
        FieldKind::Float => "float"@,
        FieldKind::Date => "date"@,
        FieldKind::Id => "id"@,
        FieldKind::IdAuto => "id"@,
    }
}

/// The message for a value that does not read as a value of its field's kind.
pub open spec fn invalid_value_message(kind: FieldKind, raw: Seq<char>) -> Seq<char> {
    "expected "@ + kind_label(kind) + ", got '"@ + trimmed(raw) + "'"@
}

/// Whether a field of this kind is searched as text: indexed, and not a number.
pub open spec fn searchable_kind(kind: FieldKind) -> bool {
    kind != FieldKind::Unindexed && kind != FieldKind::Integer && kind != FieldKind::Float
}

/// Whether a field of this kind names the document.
pub open spec fn is_id_kind(kind: FieldKind) -> bool {
    kind == FieldKind::Id || kind == FieldKind::IdAuto
}

impl FieldKind {
    /// The defaults of this kind of field.
    pub fn defaults(self) -> (r: FieldDefaults)
        ensures
            r == kind_defaults(self),
    {
        match self {
            FieldKind::Text => FieldDefaults {
                searchable: true,
                list: true,
                weight: WeightInterval::text(),
                exact: false,
            },
            FieldKind::Id => FieldDefaults {
                searchable: true,
                list: true,
                weight: WeightInterval::default(),
                exact: true,
            },
            FieldKind::IdAuto => FieldDefaults {
                searchable: false,
                list: true,
                weight: WeightInterval::default(),
                exact: true,
            },
            FieldKind::Integer | FieldKind::Float | FieldKind::Date => FieldDefaults {
                searchable: false,
                list: true,
                weight: WeightInterval::default(),
                exact: true,
            },
            FieldKind::Unindexed => FieldDefaults {
                searchable: false,
                list: false,
                weight: WeightInterval::default(),
                exact: false,
            },
        }
    }

    /// Whether the field holds a number: an integer or a float.
    pub fn is_numeric(self) -> (r: bool)
        ensures
            r == (self == FieldKind::Integer || self == FieldKind::Float),
    {
        match self {
            FieldKind::Integer | FieldKind::Float => true,
            _ => false,
        }
    }

    /// Whether the field is kept in a column of values: integers, floats and dates.
    pub fn has_column(self) -> (r: bool)
        ensures
            r == (self == FieldKind::Integer || self == FieldKind::Float || self == FieldKind::Date),
    {
        match self {
            FieldKind::Integer | FieldKind::Float | FieldKind::Date => true,
            _ => false,
        }
    }

    /// The name of the kind in messages.
    pub fn label(self) -> (r: &'static str)
        ensures
            r@ == kind_label(self),
    {
        match self {
            FieldKind::Unindexed => "none",
            FieldKind::Text => "text",
            FieldKind::Integer => "integer",
            FieldKind::Float => "float",
            FieldKind::Date => "date",
            FieldKind::Id => "id",
            FieldKind::IdAuto => "id",
        }
    }

    /// Whether `raw` is a valid value for a field of this kind: for an integer field, white
    /// space around an `i64`; for a float field, white space around a finite `f64`, which
    /// `finite_float` tells; any text for the other kinds.
    pub fn validate_value(self, raw: &str, finite_float: bool) -> (r: Result<(), String>)
        ensures
            r is Ok <==> match self {
                FieldKind::Integer => parse_i64_spec(trimmed(raw@)) is Some,
                FieldKind::Float => finite_float,
                _ => true,
            },
            r matches Err(m) ==> m@ == invalid_value_message(self, raw@),
    {
        let chars = chars_of(raw);
        let t = trim_chars(chars.as_slice());
        let valid = match self {
            FieldKind::Integer => parse_i64(t.as_slice()).is_some(),
            FieldKind::Float => finite_float,
            _ => true,
        };
        if valid {
            Ok(())
        } else {
            let mut m = String::new();
            push_text(&mut m, "expected ");
            push_text(&mut m, self.label());
            push_text(&mut m, ", got '");
            let shown = string_of(t.as_slice());
            push_text(&mut m, shown.as_str());
            push_text(&mut m, "'");
            proof {
                reveal_strlit("expected ");
                reveal_strlit(", got '");
                reveal_strlit("'");
            }
            assert(m@ =~= invalid_value_message(self, raw@));
            Err(m)
        }
    }
}

/// How one field of the documents is indexed.
#[derive(Debug, Clone)]
pub struct FieldPolicy {
    pub name: String,
    pub kind: FieldKind,
    pub searchable: bool,
    pub list: bool,
    pub weight: WeightInterval,
    pub stemming: Option<String>,
    pub exact: bool,
}

/// A field policy as written in the policy file, where all but the name and the kind may be
/// left out.
#[derive(Debug, Clone)]
pub struct RawFieldPolicy {
    pub name: String,
    pub kind: FieldKind,
    pub searchable: Option<bool>,
    pub list: Option<bool>,
    pub weight: Option<WeightInterval>,
    pub stemming: Option<String>,
    pub exact: Option<bool>,
}

/// `o`'s value, or `d` where it has none.
pub open spec fn or_default<T>(o: Option<T>, d: T) -> T {
    match o {
        Some(v) => v,
        None => d,
    }
}

/// Whether a field of this kind and this `exact` setting gets an index of exact terms.
pub open spec fn exact_indexed(kind: FieldKind, exact: bool) -> bool {
    kind == FieldKind::Text && exact
}

impl FieldPolicy {
    /// The field `name` of kind `kind`, with the defaults of its kind.
    pub fn new(name: &str, kind: FieldKind) -> (r: Self)
        ensures
            r.name@ == name@,
            r.kind == kind,
            r.searchable == kind_defaults(kind).searchable,
            r.list == kind_defaults(kind).list,
            r.weight == kind_defaults(kind).weight,
            r.stemming is None,
            r.exact == kind_defaults(kind).exact,
    {
        Self::from_raw(
            RawFieldPolicy {
                name: name.to_string(),
                kind,
                searchable: None,
                list: None,
                weight: None,
                stemming: None,
                exact: None,
            },
        )
    }

    /// The policy that `raw` writes, with the defaults of its kind where it says nothing.
    pub fn from_raw(raw: RawFieldPolicy) -> (r: Self)
        ensures
            r.name == raw.name,
            r.kind == raw.kind,
            r.searchable == or_default(raw.searchable, kind_defaults(raw.kind).searchable),
            r.list == or_default(raw.list, kind_defaults(raw.kind).list),
            r.weight == or_default(raw.weight, kind_defaults(raw.kind).weight),
            r.stemming == raw.stemming,
            r.exact == or_default(raw.exact, kind_defaults(raw.kind).exact),
    {
        let defaults = raw.kind.defaults();
        FieldPolicy {
            name: raw.name,
            kind: raw.kind,
            searchable: match raw.searchable {
                Some(v) => v,
                None => defaults.searchable,
            },
            list: match raw.list {
                Some(v) => v,
                None => defaults.list,
            },
            weight: match raw.weight {
                Some(v) => v,
                None => defaults.weight,
            },
            stemming: raw.stemming,
            exact: match raw.exact {
                Some(v) => v,
                None => defaults.exact,
            },
        }
    }

    /// The field's full-text id in `policy`, which must register it.
    pub fn xpath(&self, policy: &IndexPolicy) -> (r: XPathId)
        requires
            policy.wf(),
            policy.registry().id_view().contains_key(self.name@),
        ensures
            r == policy.registry().id_view()[self.name@],
    {
        match policy.xpath_of(self.name.as_str()) {
            Some(id) => id,
            None => 0,
        }
    }

    /// Whether the field is searched by default.
    pub fn searchable(&self) -> (r: bool)
        ensures
            r == self.searchable,
    {
        self.searchable
    }

    /// Whether the field is listed in results.
    pub fn list(&self) -> (r: bool)
        ensures
            r == self.list,
    {
        self.list
    }

    /// The field's weight interval.
    pub fn weight(&self) -> (r: WeightInterval)
        ensures
            r == self.weight,
    {
        self.weight
    }

    /// The stemming language of the field, if it has one.
    pub fn stemming(&self) -> (r: Option<&str>)
        ensures
            match self.stemming {
                Some(s) => r matches Some(t) && t@ == s@,
                None => r is None,
            },
    {
        match &self.stemming {
            Some(s) => Some(s.as_str()),
            None => None,
        }
    }

    /// Whether exact matching is asked for.
    pub fn exact(&self) -> (r: bool)
        ensures
            r == self.exact,
    {
        self.exact
    }

    /// Whether the field is kept in a column of values.
    pub fn has_column(&self) -> (r: bool)
        ensures
            r == (self.kind == FieldKind::Integer || self.kind == FieldKind::Float || self.kind
                == FieldKind::Date),
    {
        self.kind.has_column()
    }

    /// Whether the field gets an index of exact terms: a text field that asks for it.
    pub fn has_exact_index(&self) -> (r: bool)
        ensures
            r == exact_indexed(self.kind, self.exact),
    {
        self.kind == FieldKind::Text && self.exact
    }

    /// The field's exact-term id in `policy`, where it has an exact index; `policy` must
    /// register it then.
    pub fn exact_xpath(&self, policy: &IndexPolicy) -> (r: Option<XPathId>)
        requires
            policy.wf(),
            exact_indexed(self.kind, self.exact) ==> policy.registry().exact_view().contains_key(self.name@),
        ensures
            !exact_indexed(self.kind, self.exact) ==> r is None,
            exact_indexed(self.kind, self.exact) ==> r == Some(policy.registry().exact_view()[self.name@]),
    {
        if !self.has_exact_index() {
            return None;
        }
        match policy.exact_xpath_of(self.name.as_str()) {
            Some(id) => Some(id),
            None => Some(0),
        }
    }
}

/// Why a policy was refused.
#[derive(Debug)]
pub enum PolicyError {
    /// Two fields have this name.
    DuplicateField(String),
    /// This field's weight interval is empty.
    InvalidWeight(String),
    /// There are this many id fields, not one.
    IdFieldCount(usize),
}

/// Whether field `j` of `fields` has the name of an earlier field.
pub open spec fn repeats_name(fields: Seq<FieldPolicy>, j: int) -> bool {
    exists|i: int| 0 <= i < j && fields[i].name@ == fields[j].name@
}

/// Whether field `j` of `fields` passes the checks made one field at a time.
pub open spec fn field_ok(fields: Seq<FieldPolicy>, j: int) -> bool {
    !repeats_name(fields, j) && fields[j].weight.min <= fields[j].weight.max
}

/// How many of `fields` name the document.
pub open spec fn id_count(fields: Seq<FieldPolicy>) -> nat
    decreases fields.len(),
{
    if fields.len() == 0 {
        0
    } else {
        id_count(fields.drop_last()) + if is_id_kind(fields.last().kind) {
            1nat
        } else {
            0nat
        }
    }
}

/// What `validate` says of `fields`: the first field that fails its own checks, else the
/// number of id fields where it is not one.
pub open spec fn validation(fields: Seq<FieldPolicy>, r: Result<(), PolicyError>) -> bool {
    match r {
        Ok(()) => (forall|j: int| 0 <= j < fields.len() ==> field_ok(fields, j)) && id_count(fields) == 1,
        Err(PolicyError::DuplicateField(n)) => exists|j: int|
            0 <= j < fields.len() && (forall|k: int| 0 <= k < j ==> field_ok(fields, k))
                && repeats_name(fields, j) && n@ == fields[j].name@,
        Err(PolicyError::InvalidWeight(n)) => exists|j: int|
            0 <= j < fields.len() && (forall|k: int| 0 <= k < j ==> field_ok(fields, k))
                && !repeats_name(fields, j) && fields[j].weight.min > fields[j].weight.max
                && n@ == fields[j].name@,
        Err(PolicyError::IdFieldCount(c)) => (forall|j: int| 0 <= j < fields.len() ==> field_ok(fields, j))
            && c == id_count(fields) && c != 1,
    }
}

/// The fields of the documents of one database and the ids of their paths.
#[derive(Debug, Clone)]
pub struct IndexPolicy {
    pub fields: Vec<FieldPolicy>,
    /// The ids of the field paths; `resolve` fills it.
    pub registry: FieldRegistry,
}

impl IndexPolicy {
    /// The registry of field ids.
    pub open spec fn registry(&self) -> FieldRegistry {
        self.registry
    }

    /// The registry is well formed.
    pub open spec fn wf(&self) -> bool {
        self.registry().wf()
    }

    /// A policy with `fields` and an empty registry.
    pub fn new(fields: Vec<FieldPolicy>) -> (r: Self)
        ensures
            r.fields == fields,
            r.wf(),
            r.registry().next_id == 1,
            r.registry().ids@.len() == 0,
            r.registry().exact_ids@.len() == 0,
    {
        IndexPolicy { fields, registry: FieldRegistry::new() }
    }

    /// The registry of field ids.
    pub fn field_registry(&self) -> (r: &FieldRegistry)
        ensures
            *r == self.registry(),
    {
        &self.registry
    }

    /// Checks that no two fields share a name, that every weight interval is ordered, and that
    /// exactly one field names the document.
    pub fn validate(&self) -> (r: Result<(), PolicyError>)
        ensures
            validation(self.fields@, r),
    {
        let fields = &self.fields;
        let mut j: usize = 0;
        while j < fields.len()
            invariant
                j <= fields@.len(),
                fields@ == self.fields@,
                forall|k: int| 0 <= k < j ==> field_ok(fields@, k),
            decreases fields@.len() - j,
        {
            let mut i: usize = 0;
            while i < j
                invariant
                    i <= j < fields@.len(),
                    fields@ == self.fields@,
                    forall|k: int| 0 <= k < j ==> field_ok(fields@, k),
                    forall|k: int| 0 <= k < i ==> fields@[k].name@ != fields@[j as int].name@,
                decreases j - i,
            {
                if text_eq(fields[i].name.as_str(), fields[j].name.as_str()) {
                    let name = fields[j].name.clone();
                    proof {
                        assert(repeats_name(fields@, j as int));
                        assert(0 <= j < fields@.len() && (forall|k: int| 0 <= k < j ==> field_ok(fields@, k))
                            && repeats_name(fields@, j as int) && name@ == fields@[j as int].name@);
                    }
                    return Err(PolicyError::DuplicateField(name));
                }
                i += 1;
            }
            if fields[j].weight.min > fields[j].weight.max {
                let name = fields[j].name.clone();
                proof {
                    assert(!repeats_name(fields@, j as int));
                    assert(0 <= j < fields@.len() && (forall|k: int| 0 <= k < j ==> field_ok(fields@, k))
                        && !repeats_name(fields@, j as int) && fields@[j as int].weight.min
                        > fields@[j as int].weight.max && name@ == fields@[j as int].name@);
                }
                return Err(PolicyError::InvalidWeight(name));
            }
            j += 1;
        }
        let mut count: usize = 0;
        let mut k: usize = 0;
        while k < fields.len()
            invariant
                k <= fields@.len(),
                fields@ == self.fields@,
                forall|m: int| 0 <= m < fields@.len() ==> field_ok(fields@, m),
                count == id_count(fields@.subrange(0, k as int)),
                count <= k,
            decreases fields@.len() - k,
        {
            proof {
                assert(fields@.subrange(0, k + 1).drop_last() =~= fields@.subrange(0, k as int));
            }
            match fields[k].kind {
                FieldKind::Id | FieldKind::IdAuto => {
                    count += 1;
                },
                _ => {},
            }
            k += 1;
        }
        assert(fields@.subrange(0, fields@.len() as int) =~= fields@);
        if count != 1 {
            return Err(PolicyError::IdFieldCount(count));
        }
        Ok(())
    }

    /// The full-text id of the field `name`, if it is registered.
    pub fn xpath_of(&self, name: &str) -> (r: Option<XPathId>)
        requires
            self.wf(),
        ensures
            r == (if self.registry().id_view().contains_key(name@) {
                Some(self.registry().id_view()[name@])
            } else {
                None::<XPathId>
            }),
    {
        self.registry.get(name)
    }

    /// The exact-term id of the field `name`, if it is registered.
    pub fn exact_xpath_of(&self, name: &str) -> (r: Option<XPathId>)
        requires
            self.wf(),
        ensures
            r == (if self.registry().exact_view().contains_key(name@) {
                Some(self.registry().exact_view()[name@])
            } else {
                None::<XPathId>
            }),
    {
        self.registry.get_exact(name)
    }

    /// The policy of a plain document: an automatic id, and an English `title` and `body`,
    /// the title weighted as a title.
    pub fn default_document() -> (r: Self)
        ensures
            r.wf(),
            r.registry().ids@.len() == 0,
            r.registry().exact_ids@.len() == 0,
            r.fields@.len() == 3,
            r.fields@[0].name@ == "id"@,
            r.fields@[0].kind == FieldKind::IdAuto,
            r.fields@[0].searchable == false,
            r.fields@[0].list == true,
            r.fields@[0].weight == (WeightInterval { min: 0, max: 100 }),
            r.fields@[0].stemming is None,
            r.fields@[0].exact == true,
            r.fields@[1].name@ == "title"@,
            r.fields@[1].kind == FieldKind::Text,
            r.fields@[1].searchable == true,
            r.fields@[1].list == true,
            r.fields@[1].weight == (WeightInterval { min: 65, max: 90 }),
            r.fields@[1].stemming matches Some(s) && s@ == "english"@,
            r.fields@[1].exact == false,
            r.fields@[2].name@ == "body"@,
            r.fields@[2].kind == FieldKind::Text,
            r.fields@[2].searchable == true,
            r.fields@[2].list == true,
            r.fields@[2].weight == (WeightInterval { min: 1, max: 75 }),
            r.fields@[2].stemming matches Some(s) && s@ == "english"@,
            r.fields@[2].exact == false,
    {
        let id = FieldPolicy::new("id", FieldKind::IdAuto);
        let mut title = FieldPolicy::new("title", FieldKind::Text);
        title.weight = WeightInterval::title();
        title.stemming = Some("english".to_string());
        let mut body = FieldPolicy::new("body", FieldKind::Text);
        body.stemming = Some("english".to_string());
        let mut fields: Vec<FieldPolicy> = Vec::new();
        fields.push(id);
        fields.push(title);
        fields.push(body);
        Self::new(fields)
    }

    /// The first field that names the document, if there is one.
    pub fn id_field(&self) -> (r: Option<&FieldPolicy>)
        ensures
            match r {
                Some(f) => exists|i: int|
                    0 <= i < self.fields@.len() && self.fields@[i] == *f && is_id_kind(f.kind)
                        && forall|k: int| 0 <= k < i ==> !is_id_kind(#[trigger] self.fields@[k].kind),
                None => forall|k: int| 0 <= k < self.fields@.len() ==> !is_id_kind(#[trigger] self.fields@[k].kind),
            },
    {
        let mut i: usize = 0;
        while i < self.fields.len()
            invariant
                i <= self.fields@.len(),
                forall|k: int| 0 <= k < i ==> !is_id_kind(#[trigger] self.fields@[k].kind),
            decreases self.fields@.len() - i,
        {
            match self.fields[i].kind {
                FieldKind::Id | FieldKind::IdAuto => {
                    return Some(&self.fields[i]);
                },
                _ => {},
            }
            i += 1;
        }
        None
    }

    /// The full-text ids of the indexed fields that are not numeric, in order; each of them
    /// must be registered.
    pub fn searchable_xpaths(&self) -> (r: Vec<XPathId>)
        requires
            self.wf(),
            forall|i: int|
                0 <= i < self.fields@.len() && #[trigger] searchable_kind(self.fields@[i].kind)
                    ==> self.registry().id_view().contains_key(self.fields@[i].name@),
        ensures
            r@ == self.fields@.filter(|f: FieldPolicy| searchable_kind(f.kind)).map_values(
                |f: FieldPolicy| self.registry().id_view()[f.name@],
            ),
    {
        let mut out: Vec<XPathId> = Vec::new();
        let mut i: usize = 0;
        while i < self.fields.len()
            invariant
                i <= self.fields@.len(),
                self.wf(),
                forall|k: int|
                    0 <= k < self.fields@.len() && #[trigger] searchable_kind(self.fields@[k].kind)
                        ==> self.registry().id_view().contains_key(self.fields@[k].name@),
                out@ == self.fields@.subrange(0, i as int).filter(|f: FieldPolicy| searchable_kind(f.kind)).map_values(
                    |f: FieldPolicy| self.registry().id_view()[f.name@],
                ),
            decreases self.fields@.len() - i,
        {
            proof {
                reveal_with_fuel(Seq::<_>::filter, 1);
                assert(self.fields@.subrange(0, i + 1).drop_last() =~= self.fields@.subrange(0, i as int));
            }
            let kind = self.fields[i].kind;
            if kind != FieldKind::Unindexed && !kind.is_numeric() {
                assert(searchable_kind(self.fields@[i as int].kind));
                let id = match self.registry.get(self.fields[i].name.as_str()) {
                    Some(id) => id,
                    None => 0,
                };
                let ghost before = out@;
                out.push(id);
                proof {
                    let p = |f: FieldPolicy| searchable_kind(f.kind);
                    let m = |f: FieldPolicy| self.registry().id_view()[f.name@];
                    assert(self.fields@.subrange(0, i + 1).filter(p) == self.fields@.subrange(0, i as int).filter(p).push(
                        self.fields@[i as int],
                    ));
                    assert(out@ =~= self.fields@.subrange(0, i + 1).filter(p).map_values(m));
                }
            } else {
                proof {
                    let p = |f: FieldPolicy| searchable_kind(f.kind);
                    assert(self.fields@.subrange(0, i + 1).filter(p) == self.fields@.subrange(0, i as int).filter(p));
                }
            }
            i += 1;
        }
        assert(self.fields@.subrange(0, self.fields@.len() as int) =~= self.fields@);
        out
    }

    /// Registers every field in `registry`, full-text ids for all and exact-term ids for those
    /// with an exact index, and keeps it as this policy's registry. Says whether anything new
    /// was registered, which is when the registry must be written back.
    pub fn resolve(&mut self, registry: FieldRegistry) -> (r: bool)
        requires
            registry.wf(),
            registry.next_id + 2 * old(self).fields@.len() < u32::MAX,
        ensures
            final(self).fields == old(self).fields,
            final(self).wf(),
            forall|i: int| 0 <= i < final(self).fields@.len() ==> final(self).registry().id_view().contains_key(
                #[trigger] final(self).fields@[i].name@,
            ),
            forall|i: int|
                0 <= i < final(self).fields@.len() && exact_indexed(
                    final(self).fields@[i].kind,
                    final(self).fields@[i].exact,
                ) ==> final(self).registry().exact_view().contains_key(#[trigger] final(self).fields@[i].name@),
            forall|k: Seq<char>| #[trigger] registry.id_view().contains_key(k)
                ==> final(self).registry().id_view().contains_key(k)
                && final(self).registry().id_view()[k] == registry.id_view()[k],
            forall|k: Seq<char>| #[trigger] registry.exact_view().contains_key(k)
                ==> final(self).registry().exact_view().contains_key(k)
                && final(self).registry().exact_view()[k] == registry.exact_view()[k],
            forall|k: Seq<char>| #[trigger] final(self).registry().id_view().contains_key(k)
                ==> registry.id_view().contains_key(k) || exists|i: int|
                0 <= i < final(self).fields@.len() && final(self).fields@[i].name@ == k,
            forall|k: Seq<char>| #[trigger] final(self).registry().exact_view().contains_key(k)
                ==> registry.exact_view().contains_key(k) || exists|i: int|
                0 <= i < final(self).fields@.len() && final(self).fields@[i].name@ == k,
            registry.ids_distinct() ==> final(self).registry().ids_distinct(),
            r == ((exists|i: int|
                0 <= i < final(self).fields@.len() && !registry.id_view().contains_key(final(self).fields@[i].name@))
                || (exists|i: int|
                0 <= i < final(self).fields@.len() && exact_indexed(
                    final(self).fields@[i].kind,
                    final(self).fields@[i].exact,
                ) && !registry.exact_view().contains_key(final(self).fields@[i].name@))),
    {
        let mut reg = registry;
        let before_ids = reg.ids.len();
        let before_exact = reg.exact_ids.len();
        let n = self.fields.len();
        let mut i: usize = 0;
        while i < n
            invariant
                i <= n,
                n == self.fields@.len(),
                reg.wf(),
                registry.wf(),
                reg.next_id + 2 * (n - i) < u32::MAX,
                before_ids == registry.ids@.len(),
                before_exact == registry.exact_ids@.len(),
                reg.ids@.len() >= before_ids,
                reg.exact_ids@.len() >= before_exact,
                reg.ids@.subrange(0, before_ids as int) == registry.ids@,
                reg.exact_ids@.subrange(0, before_exact as int) == registry.exact_ids@,
                forall|k: int| 0 <= k < i ==> reg.id_view().contains_key(#[trigger] self.fields@[k].name@),
                forall|k: int|
                    0 <= k < i && exact_indexed(self.fields@[k].kind, self.fields@[k].exact)
                        ==> reg.exact_view().contains_key(#[trigger] self.fields@[k].name@),
                forall|k: Seq<char>| #[trigger] registry.id_view().contains_key(k)
                    ==> reg.id_view().contains_key(k) && reg.id_view()[k] == registry.id_view()[k],
                forall|k: Seq<char>| #[trigger] registry.exact_view().contains_key(k)
                    ==> reg.exact_view().contains_key(k) && reg.exact_view()[k] == registry.exact_view()[k],
                forall|k: Seq<char>| #[trigger] reg.id_view().contains_key(k)
                    ==> registry.id_view().contains_key(k) || exists|m: int| 0 <= m < i && self.fields@[m].name@ == k,
                forall|k: Seq<char>| #[trigger] reg.exact_view().contains_key(k)
                    ==> registry.exact_view().contains_key(k) || exists|m: int| 0 <= m < i && self.fields@[m].name@ == k,
                registry.ids_distinct() ==> reg.ids_distinct(),
                (reg.ids@.len() > before_ids) <==> exists|m: int|
                    0 <= m < i && !registry.id_view().contains_key(self.fields@[m].name@),
                (reg.exact_ids@.len() > before_exact) <==> exists|m: int|
                    0 <= m < i && exact_indexed(self.fields@[m].kind, self.fields@[m].exact)
                        && !registry.exact_view().contains_key(self.fields@[m].name@),
            decreases n - i,
        {
            let ghost r0 = reg;
            let ghost name = self.fields@[i as int].name@;
            reg.resolve(self.fields[i].name.as_str());
            proof {
                if !r0.id_view().contains_key(name) {
                    assert(reg.id_view().contains_key(name));
                }
                assert forall|k: Seq<char>| #[trigger] reg.id_view().contains_key(k) implies registry.id_view().contains_key(k)
                    || exists|m: int| 0 <= m < i + 1 && self.fields@[m].name@ == k by {
                    if k == name {
                        assert(self.fields@[i as int].name@ == k);
                    } else if !registry.id_view().contains_key(k) {
                        assert(r0.id_view().contains_key(k));
                        let m = choose|m: int| 0 <= m < i && self.fields@[m].name@ == k;
                        assert(0 <= m < i + 1 && self.fields@[m].name@ == k);
                    }
                }
                assert(reg.exact_ids == r0.exact_ids);
                if !r0.id_view().contains_key(name) {
                    assert(reg.ids@.subrange(0, before_ids as int) =~= r0.ids@.subrange(0, before_ids as int));
                }
                assert forall|k: Seq<char>| #[trigger] reg.exact_view().contains_key(k) implies registry.exact_view().contains_key(k)
                    || exists|m: int| 0 <= m < i + 1 && self.fields@[m].name@ == k by {
                    assert(r0.exact_view().contains_key(k));
                    if !registry.exact_view().contains_key(k) {
                        let m = choose|m: int| 0 <= m < i && self.fields@[m].name@ == k;
                        assert(0 <= m < i + 1 && self.fields@[m].name@ == k);
                    }
                }
                if !registry.id_view().contains_key(name) {
                    assert(!r0.id_view().contains_key(name) || r0.ids@.len() > before_ids);
                }
                if exists|m: int| 0 <= m < i + 1 && !registry.id_view().contains_key(self.fields@[m].name@) {
                    let m = choose|m: int| 0 <= m < i + 1 && !registry.id_view().contains_key(self.fields@[m].name@);
                    if m == i && r0.ids@.len() == before_ids {
                        assert(!r0.id_view().contains_key(name));
                    }
                }
                if r0.ids@.len() == before_ids && reg.ids@.len() > before_ids {
                    assert(!registry.id_view().contains_key(name));
                    assert(0 <= i < i + 1 && !registry.id_view().contains_key(self.fields@[i as int].name@));
                }
            }
            if self.fields[i].has_exact_index() {
                let ghost r1 = reg;
                reg.resolve_exact(self.fields[i].name.as_str());
                proof {
                    if !r1.exact_view().contains_key(name) {
                        assert(reg.exact_ids@.subrange(0, before_exact as int) =~= r1.exact_ids@.subrange(
                            0,
                            before_exact as int,
                        ));
                    }
                    if r1.exact_ids@.len() == before_exact {
                        assert(r1.exact_ids@ =~= r1.exact_ids@.subrange(0, before_exact as int));
                    }
                    assert forall|k: Seq<char>| #[trigger] reg.exact_view().contains_key(k) implies registry.exact_view().contains_key(k)
                        || exists|m: int| 0 <= m < i + 1 && self.fields@[m].name@ == k by {
                        if k == name {
                            assert(self.fields@[i as int].name@ == k);
                        } else if !registry.exact_view().contains_key(k) {
                            assert(r1.exact_view().contains_key(k));
                            let m = choose|m: int| 0 <= m < i + 1 && self.fields@[m].name@ == k;
                        }
                    }
                    if exists|m: int| 0 <= m < i + 1 && exact_indexed(self.fields@[m].kind, self.fields@[m].exact)
                        && !registry.exact_view().contains_key(self.fields@[m].name@) {
                        let m = choose|m: int| 0 <= m < i + 1 && exact_indexed(self.fields@[m].kind, self.fields@[m].exact)
                            && !registry.exact_view().contains_key(self.fields@[m].name@);
                        if m == i && r1.exact_ids@.len() == before_exact {
                            assert(!r1.exact_view().contains_key(name));
                        }
                    }
                    if r1.exact_ids@.len() == before_exact && reg.exact_ids@.len() > before_exact {
                        assert(!registry.exact_view().contains_key(name));
                        assert(0 <= i < i + 1 && exact_indexed(self.fields@[i as int].kind, self.fields@[i as int].exact)
                            && !registry.exact_view().contains_key(self.fields@[i as int].name@));
                    }
                }
            } else {
                proof {
                    if exists|m: int| 0 <= m < i + 1 && exact_indexed(self.fields@[m].kind, self.fields@[m].exact)
                        && !registry.exact_view().contains_key(self.fields@[m].name@) {
                        let m = choose|m: int| 0 <= m < i + 1 && exact_indexed(self.fields@[m].kind, self.fields@[m].exact)
                            && !registry.exact_view().contains_key(self.fields@[m].name@);
                        assert(m != i);
                    }
                }
            }
            i += 1;
        }
        let changed = reg.ids.len() != before_ids || reg.exact_ids.len() != before_exact;
        self.registry = reg;
        changed
    }

    /// The fields that are indexed at all, in order.
    pub fn indexed_fields(&self) -> (r: Vec<&FieldPolicy>)
        ensures
            r@.map_values(|f: &FieldPolicy| *f) == self.fields@.filter(
                |f: FieldPolicy| f.kind != FieldKind::Unindexed,
            ),
    {
        let mut out: Vec<&FieldPolicy> = Vec::new();
        let mut i: usize = 0;
        while i < self.fields.len()
            invariant
                i <= self.fields@.len(),
                out@.map_values(|f: &FieldPolicy| *f) == self.fields@.subrange(0, i as int).filter(
                    |f: FieldPolicy| f.kind != FieldKind::Unindexed,
                ),
            decreases self.fields@.len() - i,
        {
            proof {
                let p = |f: FieldPolicy| f.kind != FieldKind::Unindexed;
                reveal_with_fuel(Seq::<_>::filter, 1);
                assert(self.fields@.subrange(0, i + 1).drop_last() =~= self.fields@.subrange(0, i as int));
            }
            let ghost before = out@;
            if self.fields[i].kind != FieldKind::Unindexed {
                out.push(&self.fields[i]);
                assert(out@.map_values(|f: &FieldPolicy| *f) =~= before.map_values(|f: &FieldPolicy| *f).push(
                    self.fields@[i as int],
                ));
            }
            i += 1;
        }
        assert(self.fields@.subrange(0, self.fields@.len() as int) =~= self.fields@);
        out
    }
}

/// How a query term is matched against a field.
pub enum MatchMode {
    FullText,
    Exact,
    Both,
}

} // verus!
