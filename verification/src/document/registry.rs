use vstd::prelude::*;

use crate::text::text_eq;
use crate::types::XPathId;

verus! {

broadcast use vstd::string::group_string_axioms;

/// The ids of the names in `entries`.
pub open spec fn id_map(entries: Seq<(String, XPathId)>) -> Map<Seq<char>, XPathId> {
    Map::new(
        |name: Seq<char>| exists|i: int| 0 <= i < entries.len() && entries[i].0@ == name,
        |name: Seq<char>| entries[choose|i: int| 0 <= i < entries.len() && entries[i].0@ == name].1,
    )
}

/// The ids after resolving `name` against `view`, with `next` the id a new name gets.
pub open spec fn resolved_view(view: Map<Seq<char>, XPathId>, next: XPathId, name: Seq<char>) -> Map<Seq<char>, XPathId> {
    if view.contains_key(name) {
        view
    } else {
        view.insert(name, next)
    }
}

/// Resolving a name gives it an id; resolving it again gives the same id and changes nothing;
/// every other name keeps its id.
pub proof fn lemma_resolve_idempotent(view: Map<Seq<char>, XPathId>, next: XPathId, later: XPathId, name: Seq<char>, other: Seq<char>)
    ensures
        resolved_view(view, next, name).contains_key(name),
        resolved_view(resolved_view(view, next, name), later, name) == resolved_view(view, next, name),
        view.contains_key(name) ==> resolved_view(view, next, name)[name] == view[name],
        other != name ==> resolved_view(view, next, name).contains_key(other) == view.contains_key(other),
        other != name && view.contains_key(other) ==> resolved_view(view, next, name)[other] == view[other],
{
}

/// A name resolved for the first time gets an id that no other registered name has, as long as
/// every id handed out is below `next`.
pub proof fn lemma_resolve_fresh(view: Map<Seq<char>, XPathId>, next: XPathId, name: Seq<char>, other: Seq<char>)
    requires
        forall|n: Seq<char>| view.contains_key(n) ==> view[n] < next,
        !view.contains_key(name),
        view.contains_key(other),
    ensures
        resolved_view(view, next, name)[name] != resolved_view(view, next, name)[other],
{
}

/// No name occurs twice in `entries`.
pub open spec fn names_distinct(entries: Seq<(String, XPathId)>) -> bool {
    forall|i: int, j: int| 0 <= i < j < entries.len() ==> entries[i].0@ != entries[j].0@
}

/// Where `name` stands in `entries`, which holds no name twice.
pub proof fn lemma_id_map_at(entries: Seq<(String, XPathId)>, i: int)
    requires
        names_distinct(entries),
        0 <= i < entries.len(),
    ensures
        id_map(entries).contains_key(entries[i].0@),
        id_map(entries)[entries[i].0@] == entries[i].1,
{
    let name = entries[i].0@;
    assert(exists|k: int| 0 <= k < entries.len() && entries[k].0@ == name);
    let k = choose|k: int| 0 <= k < entries.len() && entries[k].0@ == name;
    if k != i {
        if k < i {
            assert(entries[k].0@ != entries[i].0@);
        } else {
            assert(entries[i].0@ != entries[k].0@);
        }
    }
}

/// Appending a new name adds it with its id and keeps the others.
pub proof fn lemma_id_map_push(entries: Seq<(String, XPathId)>, e: (String, XPathId))
    requires
        names_distinct(entries),
        !id_map(entries).contains_key(e.0@),
    ensures
        names_distinct(entries.push(e)),
        id_map(entries.push(e)) == id_map(entries).insert(e.0@, e.1),
{
    let s = entries.push(e);
    assert forall|i: int, j: int| 0 <= i < j < s.len() implies s[i].0@ != s[j].0@ by {
        if j == entries.len() {
            assert(s[i] == entries[i]);
            assert(id_map(entries).contains_key(entries[i].0@));
        }
    }
    assert forall|name: Seq<char>| #[trigger] id_map(s).contains_key(name) <==> id_map(entries).insert(e.0@, e.1).contains_key(name) by {
        if id_map(s).contains_key(name) {
            let k = choose|k: int| 0 <= k < s.len() && s[k].0@ == name;
            if k < entries.len() {
                assert(entries[k].0@ == name);
            }
        }
        if id_map(entries).contains_key(name) {
            let k = choose|k: int| 0 <= k < entries.len() && entries[k].0@ == name;
            assert(s[k].0@ == name);
        }
        if name == e.0@ {
            assert(s[entries.len() as int].0@ == name);
        }
    }
    assert forall|name: Seq<char>| #[trigger] id_map(s).contains_key(name) implies id_map(s)[name] == id_map(
        entries,
    ).insert(e.0@, e.1)[name] by {
        let k = choose|k: int| 0 <= k < s.len() && s[k].0@ == name;
        lemma_id_map_at(s, k);
        if k < entries.len() {
            lemma_id_map_at(entries, k);
        }
    }
    assert(id_map(s) =~= id_map(entries).insert(e.0@, e.1));
}

/// Which id each field path has, for full-text terms and for exact terms, and the next id to
/// hand out.
#[derive(Debug, Clone)]
pub struct FieldRegistry {
    pub next_id: XPathId,
    pub ids: Vec<(String, XPathId)>,
    pub exact_ids: Vec<(String, XPathId)>,
}

impl FieldRegistry {
    /// The full-text id of each registered name.
    pub open spec fn id_view(&self) -> Map<Seq<char>, XPathId> {
        id_map(self.ids@)
    }

    /// The exact-term id of each registered name.
    pub open spec fn exact_view(&self) -> Map<Seq<char>, XPathId> {
        id_map(self.exact_ids@)
    }

    /// No name is registered twice, and every id handed out is below `next_id`.
    pub open spec fn wf(&self) -> bool {
        &&& names_distinct(self.ids@)
        &&& names_distinct(self.exact_ids@)
        &&& forall|i: int| 0 <= i < self.ids@.len() ==> #[trigger] self.ids@[i].1 < self.next_id
        &&& forall|i: int| 0 <= i < self.exact_ids@.len() ==> #[trigger] self.exact_ids@[i].1 < self.next_id
    }

    /// No two registered names, full-text or exact, share an id.
    pub open spec fn ids_distinct(&self) -> bool {
        let all = self.ids@ + self.exact_ids@;
        forall|i: int, j: int| 0 <= i < j < all.len() ==> all[i].1 != all[j].1
    }

    /// An empty registry whose first id is 1.
    pub fn new() -> (r: Self)
        ensures
            r.wf(),
            r.ids_distinct(),
            r.next_id == 1,
            r.ids@.len() == 0,
            r.exact_ids@.len() == 0,
    {
        FieldRegistry { next_id: 1, ids: Vec::new(), exact_ids: Vec::new() }
    }

    /// A registry read back from its file: `next_id` is raised above every id in it.
    pub fn loaded(next_id: XPathId, ids: Vec<(String, XPathId)>, exact_ids: Vec<(String, XPathId)>) -> (r: Self)
        requires
            names_distinct(ids@),
            names_distinct(exact_ids@),
            forall|i: int| 0 <= i < ids@.len() ==> #[trigger] ids@[i].1 < u32::MAX,
            forall|i: int| 0 <= i < exact_ids@.len() ==> #[trigger] exact_ids@[i].1 < u32::MAX,
        ensures
            r.wf(),
            r.ids == ids,
            r.exact_ids == exact_ids,
            r.next_id >= next_id,
            r.next_id == next_id || (exists|i: int| 0 <= i < ids@.len() && r.next_id == ids@[i].1 + 1)
                || (exists|i: int| 0 <= i < exact_ids@.len() && r.next_id == exact_ids@[i].1 + 1),
    {
        let mut next = next_id;
        let mut i: usize = 0;
        while i < ids.len()
            invariant
                i <= ids@.len(),
                next >= next_id,
                forall|k: int| 0 <= k < i ==> #[trigger] ids@[k].1 < next,
                forall|k: int| 0 <= k < ids@.len() ==> #[trigger] ids@[k].1 < u32::MAX,
                next == next_id || (exists|k: int| 0 <= k < ids@.len() && next == ids@[k].1 + 1),
            decreases ids@.len() - i,
        {
            if ids[i].1 >= next {
                next = ids[i].1 + 1;
                assert(0 <= i < ids@.len() && next == ids@[i as int].1 + 1);
            }
            i += 1;
        }
        let mut j: usize = 0;
        while j < exact_ids.len()
            invariant
                j <= exact_ids@.len(),
                next >= next_id,
                forall|k: int| 0 <= k < ids@.len() ==> #[trigger] ids@[k].1 < next,
                forall|k: int| 0 <= k < j ==> #[trigger] exact_ids@[k].1 < next,
                forall|k: int| 0 <= k < exact_ids@.len() ==> #[trigger] exact_ids@[k].1 < u32::MAX,
                next == next_id || (exists|k: int| 0 <= k < ids@.len() && next == ids@[k].1 + 1)
                    || (exists|k: int| 0 <= k < exact_ids@.len() && next == exact_ids@[k].1 + 1),
            decreases exact_ids@.len() - j,
        {
            if exact_ids[j].1 >= next {
                next = exact_ids[j].1 + 1;
                assert(0 <= j < exact_ids@.len() && next == exact_ids@[j as int].1 + 1);
            }
            j += 1;
        }
        FieldRegistry { next_id: next, ids, exact_ids }
    }

    /// The id of `name` in `entries`, if it has one.
    fn find(entries: &Vec<(String, XPathId)>, name: &str) -> (r: Option<XPathId>)
        requires
            names_distinct(entries@),
        ensures
            r == (if id_map(entries@).contains_key(name@) {
                Some(id_map(entries@)[name@])
            } else {
                None::<XPathId>
            }),
    {
        let mut i: usize = 0;
        while i < entries.len()
            invariant
                i <= entries@.len(),
                names_distinct(entries@),
                forall|k: int| 0 <= k < i ==> entries@[k].0@ != name@,
            decreases entries@.len() - i,
        {
            if text_eq(entries[i].0.as_str(), name) {
                proof {
                    lemma_id_map_at(entries@, i as int);
                }
                return Some(entries[i].1);
            }
            i += 1;
        }
        proof {
            if id_map(entries@).contains_key(name@) {
                let k = choose|k: int| 0 <= k < entries@.len() && entries@[k].0@ == name@;
                assert(entries@[k].0@ != name@);
            }
        }
        None
    }

    /// The full-text id of `name`, if it has one.
    pub fn get(&self, name: &str) -> (r: Option<XPathId>)
        requires
            self.wf(),
        ensures
            r == (if self.id_view().contains_key(name@) {
                Some(self.id_view()[name@])
            } else {
                None::<XPathId>
            }),
    {
        Self::find(&self.ids, name)
    }

    /// The exact-term id of `name`, if it has one.
    pub fn get_exact(&self, name: &str) -> (r: Option<XPathId>)
        requires
            self.wf(),
        ensures
            r == (if self.exact_view().contains_key(name@) {
                Some(self.exact_view()[name@])
            } else {
                None::<XPathId>
            }),
    {
        Self::find(&self.exact_ids, name)
    }

    /// How many names are registered, full-text and exact together.
    pub fn len(&self) -> (r: usize)
        requires
            self.ids@.len() + self.exact_ids@.len() <= usize::MAX,
        ensures
            r == self.ids@.len() + self.exact_ids@.len(),
    {
        self.ids.len() + self.exact_ids.len()
    }

    /// The full-text id of `name`, handing out `next_id` where it has none yet.
    pub fn resolve(&mut self, name: &str) -> (r: XPathId)
        requires
            old(self).wf(),
            old(self).next_id < u32::MAX,
        ensures
            final(self).wf(),
            final(self).exact_ids == old(self).exact_ids,
            old(self).id_view().contains_key(name@) ==> r == old(self).id_view()[name@]
                && *final(self) == *old(self),
            !old(self).id_view().contains_key(name@) ==> r == old(self).next_id
                && final(self).next_id == old(self).next_id + 1
                && final(self).ids@ == old(self).ids@.push((final(self).ids@.last().0, r))
                && final(self).ids@.last().0@ == name@
                && final(self).id_view() == old(self).id_view().insert(name@, r),
            old(self).ids_distinct() ==> final(self).ids_distinct(),
            final(self).id_view() == resolved_view(old(self).id_view(), old(self).next_id, name@),
            r == resolved_view(old(self).id_view(), old(self).next_id, name@)[name@],
    {
        if let Some(id) = Self::find(&self.ids, name) {
            return id;
        }
        let id = self.next_id;
        self.next_id = self.next_id + 1;
        let ghost before = self.ids@;
        let entry = (name.to_string(), id);
        proof {
            lemma_id_map_push(before, entry);
        }
        self.ids.push(entry);
        proof {
            let all0 = before + self.exact_ids@;
            let all = self.ids@ + self.exact_ids@;
            if old(self).ids_distinct() {
                assert forall|i: int, j: int| 0 <= i < j < all.len() implies all[i].1 != all[j].1 by {
                    let n = before.len() as int;
                    if i == n {
                        assert(all[i].1 == id);
                        assert(all[j] == self.exact_ids@[j - n - 1]);
                    } else if j == n {
                        assert(all[j].1 == id);
                        assert(all[i] == before[i]);
                    } else {
                        let i0 = if i < n { i } else { i - 1 };
                        let j0 = if j < n { j } else { j - 1 };
                        assert(all[i] == all0[i0]);
                        assert(all[j] == all0[j0]);
                    }
                }
            }
        }
        id
    }

    /// The exact-term id of `name`, handing out `next_id` where it has none yet.
    pub fn resolve_exact(&mut self, name: &str) -> (r: XPathId)
        requires
            old(self).wf(),
            old(self).next_id < u32::MAX,
        ensures
            final(self).wf(),
            final(self).ids == old(self).ids,
            old(self).exact_view().contains_key(name@) ==> r == old(self).exact_view()[name@]
                && *final(self) == *old(self),
            !old(self).exact_view().contains_key(name@) ==> r == old(self).next_id
                && final(self).next_id == old(self).next_id + 1
                && final(self).exact_ids@ == old(self).exact_ids@.push((final(self).exact_ids@.last().0, r))
                && final(self).exact_ids@.last().0@ == name@
                && final(self).exact_view() == old(self).exact_view().insert(name@, r),
            old(self).ids_distinct() ==> final(self).ids_distinct(),
            final(self).exact_view() == resolved_view(old(self).exact_view(), old(self).next_id, name@),
            r == resolved_view(old(self).exact_view(), old(self).next_id, name@)[name@],
    {
        if let Some(id) = Self::find(&self.exact_ids, name) {
            return id;
        }
        let id = self.next_id;
        self.next_id = self.next_id + 1;
        let ghost before = self.exact_ids@;
        let entry = (name.to_string(), id);
        proof {
            lemma_id_map_push(before, entry);
        }
        self.exact_ids.push(entry);
        proof {
            let all0 = self.ids@ + before;
            let all = self.ids@ + self.exact_ids@;
            if old(self).ids_distinct() {
                assert forall|i: int, j: int| 0 <= i < j < all.len() implies all[i].1 != all[j].1 by {
                    let n = all0.len() as int;
                    if j == n {
                        assert(all[j].1 == id);
                        assert(all[i] == all0[i]);
                    } else {
                        assert(all[i] == all0[i]);
                        assert(all[j] == all0[j]);
                    }
                }
            }
        }
        id
    }
}

} // verus!
