use vstd::prelude::*;

use crate::document::policy::{FieldKind, IndexPolicy};
use crate::document::registry::names_distinct;
use crate::text::text_eq;
use crate::types::XPathId;

verus! {

broadcast use vstd::string::group_string_axioms;

/// The kind of the field `name` in `fields`: that of the first field so named, else unindexed.
#[verifier::opaque]
pub open spec fn kind_in(fields: Seq<crate::document::policy::FieldPolicy>, name: Seq<char>) -> FieldKind {
    if exists|i: int| 0 <= i < fields.len() && fields[i].name@ == name {
        fields[choose|i: int|
            0 <= i < fields.len() && fields[i].name@ == name && forall|k: int|
                0 <= k < i ==> fields[k].name@ != name].kind
    } else {
        FieldKind::Unindexed
    }
}

/// `kinds` after recording `paths` one after the other: a path not yet there gets its kind in
/// `fields`, one already there keeps its kind.
pub open spec fn recorded(
    kinds: Map<Seq<char>, FieldKind>,
    paths: Seq<String>,
    fields: Seq<crate::document::policy::FieldPolicy>,
) -> Map<Seq<char>, FieldKind>
    decreases paths.len(),
{
    if paths.len() == 0 {
        kinds
    } else {
        let m = recorded(kinds, paths.drop_last(), fields);
        let p = paths.last()@;
        if m.contains_key(p) {
            m
        } else {
            m.insert(p, kind_in(fields, p))
        }
    }
}

/// The kind of each field path ever seen in a document, unindexed where the policy has no
/// field of that name.
#[derive(Debug, Clone)]
pub struct AllFields {
    fields: Vec<(String, FieldKind)>,
}

impl AllFields {
    /// The kind recorded for each path.
    #[verifier::opaque]
    pub closed spec fn kinds(&self) -> Map<Seq<char>, FieldKind> {
        Map::new(
            |name: Seq<char>| exists|i: int| 0 <= i < self.fields@.len() && self.fields@[i].0@ == name,
            |name: Seq<char>| self.fields@[choose|i: int| 0 <= i < self.fields@.len() && self.fields@[i].0@ == name].1,
        )
    }

    /// No path is recorded twice.
    pub closed spec fn wf(&self) -> bool {
        forall|i: int, j: int| 0 <= i < j < self.fields@.len() ==> self.fields@[i].0@ != self.fields@[j].0@
    }

    /// The entries, in the order they were recorded.
    pub closed spec fn entry_seq(&self) -> Seq<(String, FieldKind)> {
        self.fields@
    }

    /// No path recorded.
    pub fn new() -> (r: Self)
        ensures
            r.wf(),
            r.kinds() == Map::<Seq<char>, FieldKind>::empty(),
            r.entry_seq().len() == 0,
    {
        let r = AllFields { fields: Vec::new() };
        proof {
            reveal(AllFields::kinds);
        }
        assert(r.kinds() =~= Map::<Seq<char>, FieldKind>::empty());
        r
    }

    /// The paths and kinds `entries`, as read back from where they were saved; no path may
    /// occur twice.
    pub fn loaded(entries: Vec<(String, FieldKind)>) -> (r: Self)
        requires
            forall|i: int, j: int| 0 <= i < j < entries@.len() ==> entries@[i].0@ != entries@[j].0@,
        ensures
            r.wf(),
            r.entry_seq() == entries@,
    {
        AllFields { fields: entries }
    }

    /// The kind of the field `name` in `policy`: that of the first field so named, unindexed
    /// where there is none.
    fn kind_of(policy: &IndexPolicy, name: &str) -> (r: FieldKind)
        ensures
            r == kind_in(policy.fields@, name@),
    {
        proof {
            reveal(kind_in);
        }
        let fields = &policy.fields;
        let mut i: usize = 0;
        while i < fields.len()
            invariant
                i <= fields@.len(),
                fields@ == policy.fields@,
                forall|k: int| 0 <= k < i ==> fields@[k].name@ != name@,
            decreases fields@.len() - i,
        {
            if text_eq(fields[i].name.as_str(), name) {
                proof {
                    reveal(kind_in);
                    let f = policy.fields@;
                    assert(0 <= i < f.len() && f[i as int].name@ == name@);
                    let j = choose|j: int|
                        0 <= j < f.len() && f[j].name@ == name@ && forall|k: int| 0 <= k < j ==> f[k].name@ != name@;
                    assert(0 <= i < f.len() && f[i as int].name@ == name@ && forall|k: int|
                        0 <= k < i ==> f[k].name@ != name@);
                    if j < i {
                        assert(f[j].name@ != name@);
                    } else if j > i {
                        assert(f[i as int].name@ != name@);
                    }
                }
                return fields[i].kind;
            }
            i += 1;
        }
        FieldKind::Unindexed
    }

    /// Where `name` is recorded, if it is.
    fn position(&self, name: &str) -> (r: Option<usize>)
        requires
            self.wf(),
        ensures
            match r {
                Some(i) => i < self.fields@.len() && self.fields@[i as int].0@ == name@ && self.kinds().contains_key(name@),
                None => !self.kinds().contains_key(name@),
            },
    {
        proof {
            reveal(AllFields::kinds);
        }
        let mut i: usize = 0;
        while i < self.fields.len()
            invariant
                i <= self.fields@.len(),
                forall|k: int| 0 <= k < i ==> self.fields@[k].0@ != name@,
            decreases self.fields@.len() - i,
        {
            if text_eq(self.fields[i].0.as_str(), name) {
                proof {
                    reveal(AllFields::kinds);
                    assert(self.fields@[i as int].0@ == name@);
                }
                return Some(i);
            }
            i += 1;
        }
        None
    }

    /// Records `name`, which is not recorded yet, with `kind`.
    fn push_new(&mut self, name: &str, kind: FieldKind)
        requires
            old(self).wf(),
            !old(self).kinds().contains_key(name@),
        ensures
            final(self).wf(),
            final(self).kinds() == old(self).kinds().insert(name@, kind),
    {
        let ghost before = *self;
        self.fields.push((name.to_string(), kind));
        proof {
            reveal(AllFields::kinds);
            let n = before.fields@.len() as int;
            assert forall|a: int, b: int| 0 <= a < b < self.fields@.len() implies self.fields@[a].0@ != self.fields@[b].0@ by {
                if b == n {
                    assert(self.fields@[a] == before.fields@[a]);
                    assert(before.kinds().contains_key(before.fields@[a].0@));
                }
            }
            assert forall|nm: Seq<char>| #[trigger] self.kinds().contains_key(nm) <==> (before.kinds().contains_key(nm)
                || nm == name@) by {
                if self.kinds().contains_key(nm) {
                    let k = choose|k: int| 0 <= k < self.fields@.len() && self.fields@[k].0@ == nm;
                    if k < n {
                        assert(before.fields@[k].0@ == nm);
                    }
                }
                if before.kinds().contains_key(nm) {
                    let k = choose|k: int| 0 <= k < n && before.fields@[k].0@ == nm;
                    assert(self.fields@[k].0@ == nm);
                }
                if nm == name@ {
                    assert(self.fields@[n].0@ == nm);
                }
            }
            assert forall|nm: Seq<char>| #[trigger] self.kinds().contains_key(nm) implies self.kinds()[nm] == before.kinds().insert(
                name@,
                kind,
            )[nm] by {
                let k = choose|k: int| 0 <= k < self.fields@.len() && self.fields@[k].0@ == nm;
                if nm == name@ {
                    if k != n {
                        assert(before.fields@[k].0@ == nm);
                    }
                } else {
                    let k0 = choose|k: int| 0 <= k < n && before.fields@[k].0@ == nm;
                    if k != k0 {
                        if k < k0 {
                            assert(self.fields@[k].0@ != self.fields@[k0].0@);
                        } else {
                            assert(self.fields@[k0].0@ != self.fields@[k].0@);
                        }
                    }
                }
            }
            assert(self.kinds() =~= before.kinds().insert(name@, kind));
        }
    }

    /// Records each path of `paths` not yet recorded, with its kind in `policy`; paths already
    /// recorded keep their kind.
    pub fn record_fields(&mut self, paths: &[String], policy: &IndexPolicy)
        requires
            old(self).wf(),
        ensures
            final(self).wf(),
            final(self).kinds() == recorded(old(self).kinds(), paths@, policy.fields@),
    {
        let mut i: usize = 0;
        while i < paths.len()
            invariant
                i <= paths@.len(),
                self.wf(),
                self.kinds() == recorded(old(self).kinds(), paths@.subrange(0, i as int), policy.fields@),
            decreases paths@.len() - i,
        {
            proof {
                assert(paths@.subrange(0, i + 1).drop_last() =~= paths@.subrange(0, i as int));
            }
            let name = paths[i].as_str();
            match self.position(name) {
                Some(_) => {},
                None => {
                    let kind = Self::kind_of(policy, name);
                    self.push_new(name, kind);
                },
            }
            i += 1;
        }
        assert(paths@.subrange(0, paths@.len() as int) =~= paths@);
    }

    /// The recorded paths with their kinds, in the order they were recorded.
    pub fn get_fields(&self) -> (r: &Vec<(String, FieldKind)>)
        ensures
            r@ == self.entry_seq(),
    {
        &self.fields
    }

    /// How many paths are recorded.
    pub fn len(&self) -> (r: usize)
        ensures
            r == self.entry_seq().len(),
    {
        self.fields.len()
    }

    /// Whether no path is recorded.
    pub fn is_empty(&self) -> (r: bool)
        ensures
            r == (self.entry_seq().len() == 0),
    {
        self.fields.len() == 0
    }
}

/// A piece of a document to index: the text of one field path with the weights it may get, and
/// whether it is indexed as one exact term.
#[derive(Debug, Clone)]
pub struct DocumentPart {
    pub xpath: XPathId,
    pub text: String,
    pub weight: crate::document::policy::WeightInterval,
    pub exact: bool,
}

} // verus!
