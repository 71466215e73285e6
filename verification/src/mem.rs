//! The in-memory inverted index that documents are added to before it is written out.

use vstd::prelude::*;

use crate::analyzer::token::Token;
use crate::posting::item::{Posting, PostingV};
use crate::posting::list::{PostingList, PostingListV};
use crate::posting::spec::{has_doc, max_weight_of, merged_from, views};
use crate::text::{chars_of, text_eq};
use crate::types::{DocId, Position, XPathId};

verus! {

broadcast use vstd::string::group_string_axioms;

/// A term within one field path.
#[derive(Debug, Clone)]
pub struct TermKey {
    pub term: String,
    pub xpath: XPathId,
}

/// How many documents have a field path, and how many tokens they hold there together.
#[derive(Debug, Clone, Copy, PartialEq, Eq, Structural)]
pub struct FieldStats {
    pub doc_count: u64,
    pub total_doc_len: u64,
}

/// The empty posting list.
pub open spec fn empty_postings() -> PostingListV {
    PostingListV { items: Seq::empty(), max_weight: 0 }
}

/// Whether `new` is `old` with one occurrence recorded: at `position` in `doc_id` with `weight`.
pub open spec fn inserted_once(old: PostingListV, new: PostingListV, doc_id: DocId, position: Position, weight: u16) -> bool {
    &&& new.max_weight == (if weight > old.max_weight { weight } else { old.max_weight })
    &&& forall|i: int| 0 <= i < old.items.len() && old.items[i].doc_id == doc_id
        ==> new.items == old.items.update(i, PostingV {
            doc_id,
            positions: old.items[i].positions.push(position),
            weight: if weight > old.items[i].weight { weight } else { old.items[i].weight },
        })
    &&& !has_doc(old.items, doc_id) ==> exists|k: int| 0 <= k <= old.items.len()
        && new.items == old.items.insert(k, PostingV { doc_id, positions: seq![position], weight })
}

/// Whether `new` is `old` with the occurrences `positions` recorded in `doc_id` with `weight`.
pub open spec fn inserted_all(old: PostingListV, new: PostingListV, doc_id: DocId, positions: Seq<Position>, weight: u16) -> bool {
    &&& positions.len() == 0 ==> new == old
    &&& positions.len() > 0 ==> new.max_weight == (if weight > old.max_weight { weight } else { old.max_weight })
    &&& positions.len() > 0 ==> forall|i: int| 0 <= i < old.items.len() && old.items[i].doc_id == doc_id
        ==> new.items == old.items.update(i, PostingV {
            doc_id,
            positions: old.items[i].positions + positions,
            weight: if weight > old.items[i].weight { weight } else { old.items[i].weight },
        })
    &&& positions.len() > 0 && !has_doc(old.items, doc_id) ==> exists|k: int| 0 <= k <= old.items.len()
        && new.items == old.items.insert(k, PostingV { doc_id, positions, weight })
}

/// The postings of every entry of `terms` whose key satisfies `keep`, entry after entry.
pub open spec fn items_where_in(
    terms: Seq<(String, XPathId, PostingList)>,
    keep: spec_fn((Seq<char>, XPathId)) -> bool,
) -> Seq<PostingV>
    decreases terms.len(),
{
    if terms.len() == 0 {
        Seq::empty()
    } else {
        let rest = items_where_in(terms.drop_last(), keep);
        let e = terms.last();
        if keep((e.0@, e.1)) {
            rest + e.2@.items
        } else {
            rest
        }
    }
}

/// Appends copies of `src` to `items`.
fn append_items(items: &mut Vec<Posting>, src: &[Posting])
    ensures
        views(final(items)@) == views(old(items)@) + views(src@),
{
    let mut j: usize = 0;
    while j < src.len()
        invariant
            j <= src@.len(),
            views(items@) == views(old(items)@) + views(src@.subrange(0, j as int)),
        decreases src@.len() - j,
    {
        let ghost before = items@;
        items.push(src[j].duplicate());
        proof {
            assert(views(items@) =~= views(before).push(src@[j as int]@));
            assert(views(src@.subrange(0, j + 1)) =~= views(src@.subrange(0, j as int)).push(src@[j as int]@));
        }
        j += 1;
    }
    assert(src@.subrange(0, src@.len() as int) =~= src@);
}

/// A copy of `v`.
fn clone_positions(v: &Vec<u32>) -> (r: Vec<u32>)
    ensures
        r@ == v@,
{
    let mut r: Vec<u32> = Vec::new();
    let mut i: usize = 0;
    while i < v.len()
        invariant
            i <= v@.len(),
            r@ == v@.subrange(0, i as int),
        decreases v@.len() - i,
    {
        r.push(v[i]);
        proof {
            assert(r@ =~= v@.subrange(0, i + 1));
        }
        i += 1;
    }
    assert(v@.subrange(0, v@.len() as int) =~= v@);
    r
}

/// The distinct texts of `tokens` in order of first appearance, each with its positions.
fn group_tokens(tokens: &[Token]) -> (r: Vec<(String, Vec<u32>)>)
    ensures
        r@.len() == distinct_texts(tokens@).len(),
        forall|h: int| 0 <= h < r@.len() ==> (#[trigger] r@[h]).0@ == distinct_texts(tokens@)[h]
            && r@[h].1@ == positions_in(tokens@, distinct_texts(tokens@)[h]),
{
    let mut groups: Vec<(String, Vec<u32>)> = Vec::new();
    let mut i: usize = 0;
    while i < tokens.len()
        invariant
            i <= tokens@.len(),
            groups@.len() == distinct_texts(tokens@.subrange(0, i as int)).len(),
            forall|h: int| 0 <= h < groups@.len() ==> (#[trigger] groups@[h]).0@ == distinct_texts(tokens@.subrange(0, i as int))[h]
                && groups@[h].1@ == positions_in(tokens@.subrange(0, i as int), distinct_texts(tokens@.subrange(0, i as int))[h]),
        decreases tokens@.len() - i,
    {
        let ghost pre = tokens@.subrange(0, i as int);
        let ghost post = tokens@.subrange(0, i + 1);
        let ghost d = distinct_texts(pre);
        proof {
            assert(post.drop_last() =~= pre);
            assert(post.last() == tokens@[i as int]);
            lemma_distinct_texts(pre);
        }
        let tok = &tokens[i];
        let ghost x = tok.text@;
        let mut found: Option<usize> = None;
        let mut h: usize = 0;
        while h < groups.len()
            invariant
                h <= groups@.len(),
                tok.text@ == x,
                found matches Some(f) ==> f < groups@.len() && groups@[f as int].0@ == x,
                found is None ==> forall|k: int| 0 <= k < h ==> groups@[k].0@ != x,
            decreases groups@.len() - h,
        {
            if found.is_none() && text_eq(groups[h].0.as_str(), tok.text.as_str()) {
                found = Some(h);
            }
            h += 1;
        }
        match found {
            Some(f) => {
                let ghost before = groups@;
                groups[f].1.push(tok.position);
                proof {
                    assert(d.contains(x)) by {
                        assert(d[f as int] == x);
                    }
                    assert(distinct_texts(post) == d);
                    assert forall|k: int| 0 <= k < groups@.len() implies (#[trigger] groups@[k]).0@ == d[k] && groups@[k].1@
                        == positions_in(post, d[k]) by {
                        if k != f {
                            assert(groups@[k] == before[k]);
                            assert(d[k] != d[f as int]);
                        } else {
                            assert(groups@[k].1@ == before[k].1@.push(tok.position));
                        }
                    }
                }
            },
            None => {
                let ghost before = groups@;
                let mut ps: Vec<u32> = Vec::new();
                ps.push(tok.position);
                groups.push((tok.text.clone(), ps));
                proof {
                    assert(!d.contains(x)) by {
                        if d.contains(x) {
                            let k = choose|k: int| 0 <= k < d.len() && d[k] == x;
                            assert(groups@[k].0@ == x);
                        }
                    }
                    assert(distinct_texts(post) == d.push(x));
                    assert(positions_in(pre, x).len() == 0);
                    assert forall|k: int| 0 <= k < groups@.len() implies (#[trigger] groups@[k]).0@ == d.push(x)[k]
                        && groups@[k].1@ == positions_in(post, d.push(x)[k]) by {
                        if k < before.len() {
                            assert(groups@[k] == before[k]);
                            assert(d[k] != x);
                        } else {
                            assert(positions_in(post, x) =~= seq![tok.position]);
                        }
                    }
                }
            },
        }
        i += 1;
    }
    assert(tokens@.subrange(0, tokens@.len() as int) =~= tokens@);
    groups
}

/// Whether `s` starts with the characters `prefix`.
fn starts_with(s: &str, prefix: &[char]) -> (r: bool)
    ensures
        r == prefix@.is_prefix_of(s@),
{
    let cs = chars_of(s);
    if prefix.len() > cs.len() {
        return false;
    }
    let mut i: usize = 0;
    while i < prefix.len()
        invariant
            i <= prefix@.len() <= cs@.len(),
            cs@ == s@,
            forall|k: int| 0 <= k < i ==> prefix@[k] == s@[k],
        decreases prefix@.len() - i,
    {
        if prefix[i] != cs[i] {
            return false;
        }
        i += 1;
    }
    assert(prefix@ =~= s@.subrange(0, prefix@.len() as int));
    true
}

/// The distinct texts of `tokens`, in order of first appearance.
pub open spec fn distinct_texts(tokens: Seq<Token>) -> Seq<Seq<char>>
    decreases tokens.len(),
{
    if tokens.len() == 0 {
        Seq::empty()
    } else {
        let d = distinct_texts(tokens.drop_last());
        if d.contains(tokens.last().text@) {
            d
        } else {
            d.push(tokens.last().text@)
        }
    }
}

/// The positions of the tokens of `tokens` whose text is `t`, in order.
pub open spec fn positions_in(tokens: Seq<Token>, t: Seq<char>) -> Seq<Position>
    decreases tokens.len(),
{
    if tokens.len() == 0 {
        Seq::empty()
    } else {
        let p = positions_in(tokens.drop_last(), t);
        if tokens.last().text@ == t {
            p.push(tokens.last().position)
        } else {
            p
        }
    }
}

/// The weight of a term found `n` times in a part whose weights run from `min_weight` to
/// `max_weight`: the minimum plus the count, both capped.
pub open spec fn part_weight(n: nat, min_weight: u16, max_weight: u16) -> u16 {
    let occ = if n > u16::MAX { u16::MAX as int } else { n as int };
    let raised = if min_weight + occ > u16::MAX { u16::MAX as int } else { min_weight + occ };
    (if raised < max_weight { raised } else { max_weight as int }) as u16
}

/// The number of tokens of a part, capped at `u32::MAX`.
pub open spec fn part_length(n: nat) -> u32 {
    (if n > u32::MAX { u32::MAX as nat } else { n }) as u32
}

/// The statistics of `xpath` after counting one more document of `len` tokens.
pub open spec fn counted(stats: Map<XPathId, FieldStats>, xpath: XPathId, len: u32) -> FieldStats {
    if stats.contains_key(xpath) {
        FieldStats {
            doc_count: (stats[xpath].doc_count + 1) as u64,
            total_doc_len: (stats[xpath].total_doc_len + len) as u64,
        }
    } else {
        FieldStats { doc_count: 1, total_doc_len: len as u64 }
    }
}

/// The distinct texts are distinct, and are exactly the texts of the tokens; a text not among
/// them has no position.
pub proof fn lemma_distinct_texts(tokens: Seq<Token>)
    ensures
        distinct_texts(tokens).no_duplicates(),
        forall|t: Seq<char>| #[trigger] distinct_texts(tokens).contains(t) <==> exists|k: int|
            0 <= k < tokens.len() && tokens[k].text@ == t,
        forall|t: Seq<char>| !distinct_texts(tokens).contains(t) ==> #[trigger] positions_in(tokens, t).len() == 0,
        forall|t: Seq<char>| distinct_texts(tokens).contains(t) ==> #[trigger] positions_in(tokens, t).len() > 0,
    decreases tokens.len(),
{
    if tokens.len() > 0 {
        let pre = tokens.drop_last();
        lemma_distinct_texts(pre);
        let d = distinct_texts(pre);
        let x = tokens.last().text@;
        assert forall|t: Seq<char>| #[trigger] distinct_texts(tokens).contains(t) <==> exists|k: int|
            0 <= k < tokens.len() && tokens[k].text@ == t by {
            if distinct_texts(tokens).contains(t) {
                if d.contains(t) {
                    let k = choose|k: int| 0 <= k < pre.len() && pre[k].text@ == t;
                    assert(tokens[k] == pre[k]);
                } else {
                    assert(t == x);
                    assert(tokens[tokens.len() - 1].text@ == t);
                }
            }
            if exists|k: int| 0 <= k < tokens.len() && tokens[k].text@ == t {
                let k = choose|k: int| 0 <= k < tokens.len() && tokens[k].text@ == t;
                if k < pre.len() {
                    assert(pre[k] == tokens[k]);
                    assert(d.contains(t));
                } else {
                    assert(t == x);
                }
                if !d.contains(x) {
                    assert(d.push(x)[d.len() as int] == x);
                    if d.contains(t) {
                        let j = choose|j: int| 0 <= j < d.len() && d[j] == t;
                        assert(d.push(x)[j] == t);
                    }
                }
            }
        }
        assert forall|t: Seq<char>| #![trigger positions_in(tokens, t)] true implies positions_in(tokens, t) == positions_in(pre, t)
            + (if x == t { seq![tokens.last().position] } else { Seq::<Position>::empty() }) by {
            if x == t {
                assert(positions_in(tokens, t) =~= positions_in(pre, t).push(tokens.last().position));
            } else {
                assert(positions_in(tokens, t) =~= positions_in(pre, t));
            }
        }
        assert forall|t: Seq<char>| !distinct_texts(tokens).contains(t) implies #[trigger] positions_in(tokens, t).len() == 0 by {
            if x == t {
                if !d.contains(x) {
                    assert(d.push(x)[d.len() as int] == x);
                }
            }
            if d.contains(t) {
                let j = choose|j: int| 0 <= j < d.len() && d[j] == t;
                if !d.contains(x) {
                    assert(d.push(x)[j] == t);
                }
            }
        }
        assert forall|t: Seq<char>| distinct_texts(tokens).contains(t) implies #[trigger] positions_in(tokens, t).len() > 0 by {
            if !d.contains(t) {
                if d.contains(x) {
                } else {
                    let j = choose|j: int| 0 <= j < d.push(x).len() && d.push(x)[j] == t;
                    if j < d.len() {
                        assert(d[j] == t);
                    }
                }
            }
        }
        if !d.contains(x) {
            assert forall|a: int, b: int| 0 <= a < d.push(x).len() && 0 <= b < d.push(x).len() && a != b implies d.push(x)[a]
                != d.push(x)[b] by {
                if a == d.len() {
                    assert(!d.contains(d.push(x)[b]) || d.push(x)[b] != x);
                } else if b == d.len() {
                    assert(d.push(x)[a] == d[a]);
                }
            }
        }
    }
}

/// The inverted index in memory: the postings of each term of each field path, the length of
/// each document's field, and the statistics of each field path.
pub struct MemIndex {
    terms: Vec<(String, XPathId, PostingList)>,
    term_map: Ghost<Map<(Seq<char>, XPathId), PostingListV>>,
    doc_lengths: Vec<(DocId, XPathId, u32)>,
    length_map: Ghost<Map<(DocId, XPathId), u32>>,
    field_stats: Vec<(XPathId, FieldStats)>,
    stats_map: Ghost<Map<XPathId, FieldStats>>,
}

impl MemIndex {
    /// The postings of each term of each field path.
    pub closed spec fn postings(&self) -> Map<(Seq<char>, XPathId), PostingListV> {
        self.term_map@
    }

    /// The number of tokens of each document in each field path.
    pub closed spec fn lengths(&self) -> Map<(DocId, XPathId), u32> {
        self.length_map@
    }

    /// The statistics of each field path.
    pub closed spec fn stats(&self) -> Map<XPathId, FieldStats> {
        self.stats_map@
    }

    /// The entries and the maps agree, no key is stored twice, and every list is well formed.
    pub closed spec fn wf(&self) -> bool {
        &&& forall|i: int, j: int|
            0 <= i < j < self.terms@.len() ==> (self.terms@[i].0@, self.terms@[i].1) != (self.terms@[j].0@, self.terms@[j].1)
        &&& forall|i: int| 0 <= i < self.terms@.len() ==> {
            &&& self.term_map@.contains_key((#[trigger] self.terms@[i].0@, self.terms@[i].1))
            &&& self.term_map@[(self.terms@[i].0@, self.terms@[i].1)] == self.terms@[i].2@
            &&& self.terms@[i].2.wf()
        }
        &&& forall|k: (Seq<char>, XPathId)| #[trigger] self.term_map@.contains_key(k) ==> exists|i: int|
            0 <= i < self.terms@.len() && (self.terms@[i].0@, self.terms@[i].1) == k
        &&& forall|i: int, j: int|
            0 <= i < j < self.doc_lengths@.len() ==> (self.doc_lengths@[i].0, self.doc_lengths@[i].1) != (
                self.doc_lengths@[j].0,
                self.doc_lengths@[j].1,
            )
        &&& forall|i: int| 0 <= i < self.doc_lengths@.len() ==> {
            &&& self.length_map@.contains_key((#[trigger] self.doc_lengths@[i].0, self.doc_lengths@[i].1))
            &&& self.length_map@[(self.doc_lengths@[i].0, self.doc_lengths@[i].1)] == self.doc_lengths@[i].2
        }
        &&& forall|k: (DocId, XPathId)| #[trigger] self.length_map@.contains_key(k) ==> exists|i: int|
            0 <= i < self.doc_lengths@.len() && (self.doc_lengths@[i].0, self.doc_lengths@[i].1) == k
        &&& forall|i: int, j: int| 0 <= i < j < self.field_stats@.len() ==> self.field_stats@[i].0 != self.field_stats@[j].0
        &&& forall|i: int| 0 <= i < self.field_stats@.len() ==> {
            &&& self.stats_map@.contains_key(#[trigger] self.field_stats@[i].0)
            &&& self.stats_map@[self.field_stats@[i].0] == self.field_stats@[i].1
        }
        &&& forall|k: XPathId| #[trigger] self.stats_map@.contains_key(k) ==> exists|i: int|
            0 <= i < self.field_stats@.len() && self.field_stats@[i].0 == k
    }

    /// An empty index.
    pub fn new() -> (r: Self)
        ensures
            r.wf(),
            r.postings() == Map::<(Seq<char>, XPathId), PostingListV>::empty(),
            r.lengths() == Map::<(DocId, XPathId), u32>::empty(),
            r.stats() == Map::<XPathId, FieldStats>::empty(),
    {
        MemIndex {
            terms: Vec::new(),
            term_map: Ghost(Map::empty()),
            doc_lengths: Vec::new(),
            length_map: Ghost(Map::empty()),
            field_stats: Vec::new(),
            stats_map: Ghost(Map::empty()),
        }
    }

    /// Where the postings of `term` in `xpath` stand, if there are any.
    fn find_term(&self, term: &str, xpath: XPathId) -> (r: Option<usize>)
        requires
            self.wf(),
        ensures
            match r {
                Some(i) => i < self.terms@.len() && self.terms@[i as int].0@ == term@ && self.terms@[i as int].1 == xpath,
                None => !self.postings().contains_key((term@, xpath)),
            },
    {
        let mut i: usize = 0;
        while i < self.terms.len()
            invariant
                i <= self.terms@.len(),
                forall|k: int| 0 <= k < i ==> (self.terms@[k].0@, self.terms@[k].1) != (term@, xpath),
            decreases self.terms@.len() - i,
        {
            if self.terms[i].1 == xpath && text_eq(self.terms[i].0.as_str(), term) {
                return Some(i);
            }
            i += 1;
        }
        None
    }

    /// Records one occurrence of `term` in `xpath` at `position` of `doc_id`, with weight 1.
    pub fn add_token(&mut self, term: &str, xpath: XPathId, doc_id: DocId, position: u32)
        requires
            old(self).wf(),
        ensures
            final(self).wf(),
            final(self).postings().dom() == old(self).postings().dom().insert((term@, xpath)),
            forall|k: (Seq<char>, XPathId)| k != (term@, xpath) && #[trigger] old(self).postings().contains_key(k)
                ==> final(self).postings()[k] == old(self).postings()[k],
            inserted_once(
                if old(self).postings().contains_key((term@, xpath)) {
                    old(self).postings()[(term@, xpath)]
                } else {
                    empty_postings()
                },
                final(self).postings()[(term@, xpath)],
                doc_id,
                position,
                1,
            ),
            final(self).lengths() == old(self).lengths(),
            final(self).stats() == old(self).stats(),
    {
        self.add_token_weighted(term, xpath, doc_id, position, 1);
    }

    /// Records one occurrence of `term` in `xpath` at `position` of `doc_id` with `weight`.
    pub fn add_token_weighted(&mut self, term: &str, xpath: XPathId, doc_id: DocId, position: u32, weight: u16)
        requires
            old(self).wf(),
        ensures
            final(self).wf(),
            final(self).postings().dom() == old(self).postings().dom().insert((term@, xpath)),
            forall|k: (Seq<char>, XPathId)| k != (term@, xpath) && #[trigger] old(self).postings().contains_key(k)
                ==> final(self).postings()[k] == old(self).postings()[k],
            inserted_once(
                if old(self).postings().contains_key((term@, xpath)) {
                    old(self).postings()[(term@, xpath)]
                } else {
                    empty_postings()
                },
                final(self).postings()[(term@, xpath)],
                doc_id,
                position,
                weight,
            ),
            final(self).lengths() == old(self).lengths(),
            final(self).stats() == old(self).stats(),
    {
        let ghost key = (term@, xpath);
        match self.find_term(term, xpath) {
            Some(i) => {
                let ghost before = self.terms@;
                let ghost old_list = self.terms@[i as int].2@;
                self.terms[i].2.insert(doc_id, position, weight);
                proof {
                    self.term_map@ = self.term_map@.insert(key, self.terms@[i as int].2@);
                    assert(old(self).term_map@.contains_key(key));
                    assert(old_list == old(self).postings()[key]);
                    assert(self.term_map@.dom() =~= self.term_map@.dom().insert(key));
                    assert forall|k: int| 0 <= k < before.len() && k != i implies {
                        &&& self.term_map@.contains_key((#[trigger] before[k].0@, before[k].1))
                        &&& self.term_map@[(before[k].0@, before[k].1)] == before[k].2@
                        &&& before[k].2.wf()
                    } by {
                        assert(old(self).term_map@.contains_key((before[k].0@, before[k].1)));
                    }
                    self.lemma_terms_updated(before, i as int);
                    assert(self.postings().dom() =~= old(self).postings().dom().insert(key));
                    assert(self.doc_lengths == old(self).doc_lengths);
                    assert(self.length_map == old(self).length_map);
                    assert(self.field_stats == old(self).field_stats);
                    assert(self.stats_map == old(self).stats_map);
                    assert(forall|k: (DocId, XPathId)| #[trigger] self.length_map@.contains_key(k) ==> exists|i: int|
                        0 <= i < self.doc_lengths@.len() && (self.doc_lengths@[i].0, self.doc_lengths@[i].1) == k);
                    assert(forall|k: XPathId| #[trigger] self.stats_map@.contains_key(k) ==> exists|i: int|
                        0 <= i < self.field_stats@.len() && self.field_stats@[i].0 == k);
                    assert(self.wf());
                }
            },
            None => {
                let mut list = PostingList::new();
                list.insert(doc_id, position, weight);
                self.push_term(term, xpath, list);
            },
        }
    }

    /// Records the occurrences `positions` of `term` in `xpath` of `doc_id` with `weight`; nothing
    /// where there are none.
    pub fn add_posting_weighted(&mut self, term: &str, xpath: XPathId, doc_id: DocId, positions: Vec<u32>, weight: u16)
        requires
            old(self).wf(),
        ensures
            final(self).wf(),
            positions@.len() > 0 ==> final(self).postings().dom() == old(self).postings().dom().insert((term@, xpath)),
            positions@.len() == 0 ==> final(self).postings() == old(self).postings(),
            forall|k: (Seq<char>, XPathId)| k != (term@, xpath) && #[trigger] old(self).postings().contains_key(k)
                ==> final(self).postings()[k] == old(self).postings()[k],
            positions@.len() > 0 ==> inserted_all(
                if old(self).postings().contains_key((term@, xpath)) {
                    old(self).postings()[(term@, xpath)]
                } else {
                    empty_postings()
                },
                final(self).postings()[(term@, xpath)],
                doc_id,
                positions@,
                weight,
            ),
            final(self).lengths() == old(self).lengths(),
            final(self).stats() == old(self).stats(),
    {
        let ghost key = (term@, xpath);
        if positions.len() == 0 {
            return;
        }
        let ghost ps = positions@;
        match self.find_term(term, xpath) {
            Some(i) => {
                let ghost before = self.terms@;
                let ghost old_list = self.terms@[i as int].2@;
                self.terms[i].2.insert_posting(doc_id, positions, weight);
                proof {
                    self.term_map@ = self.term_map@.insert(key, self.terms@[i as int].2@);
                    assert(old(self).term_map@.contains_key(key));
                    assert(old_list == old(self).postings()[key]);
                    assert(self.term_map@.dom() =~= self.term_map@.dom().insert(key));
                    assert forall|k: int| 0 <= k < before.len() && k != i implies {
                        &&& self.term_map@.contains_key((#[trigger] before[k].0@, before[k].1))
                        &&& self.term_map@[(before[k].0@, before[k].1)] == before[k].2@
                        &&& before[k].2.wf()
                    } by {
                        assert(old(self).term_map@.contains_key((before[k].0@, before[k].1)));
                    }
                    self.lemma_terms_updated(before, i as int);
                    assert(self.postings().dom() =~= old(self).postings().dom().insert(key));
                    assert(self.doc_lengths == old(self).doc_lengths);
                    assert(self.length_map == old(self).length_map);
                    assert(self.field_stats == old(self).field_stats);
                    assert(self.stats_map == old(self).stats_map);
                    assert(forall|k: (DocId, XPathId)| #[trigger] self.length_map@.contains_key(k) ==> exists|i: int|
                        0 <= i < self.doc_lengths@.len() && (self.doc_lengths@[i].0, self.doc_lengths@[i].1) == k);
                    assert(forall|k: XPathId| #[trigger] self.stats_map@.contains_key(k) ==> exists|i: int|
                        0 <= i < self.field_stats@.len() && self.field_stats@[i].0 == k);
                    assert(self.wf());
                }
            },
            None => {
                let mut list = PostingList::new();
                list.insert_posting(doc_id, positions, weight);
                self.push_term(term, xpath, list);
            },
        }
    }

    /// Adds the postings `list` under `(term, xpath)`, which has none yet.
    fn push_term(&mut self, term: &str, xpath: XPathId, list: PostingList)
        requires
            old(self).wf(),
            !old(self).postings().contains_key((term@, xpath)),
            list.wf(),
        ensures
            final(self).wf(),
            final(self).postings() == old(self).postings().insert((term@, xpath), list@),
            final(self).lengths() == old(self).lengths(),
            final(self).stats() == old(self).stats(),
    {
        let ghost key = (term@, xpath);
        let ghost before = self.terms@;
        self.terms.push((term.to_string(), xpath, list));
        proof {
            let n = before.len() as int;
            self.term_map@ = self.term_map@.insert(key, self.terms@[n].2@);
            assert forall|a: int, b: int| 0 <= a < b < self.terms@.len() implies (self.terms@[a].0@, self.terms@[a].1)
                != (self.terms@[b].0@, self.terms@[b].1) by {
                if b == n {
                    assert(self.terms@[a] == before[a]);
                    assert(old(self).term_map@.contains_key((before[a].0@, before[a].1)));
                } else {
                    assert(self.terms@[a] == before[a]);
                    assert(self.terms@[b] == before[b]);
                }
            }
            assert forall|a: int| 0 <= a < self.terms@.len() implies {
                &&& self.term_map@.contains_key((#[trigger] self.terms@[a].0@, self.terms@[a].1))
                &&& self.term_map@[(self.terms@[a].0@, self.terms@[a].1)] == self.terms@[a].2@
                &&& self.terms@[a].2.wf()
            } by {
                if a < n {
                    assert(self.terms@[a] == before[a]);
                    assert(old(self).term_map@.contains_key((before[a].0@, before[a].1)));
                }
            }
            assert forall|kk: (Seq<char>, XPathId)| #[trigger] self.term_map@.contains_key(kk) implies exists|k: int|
                0 <= k < self.terms@.len() && (self.terms@[k].0@, self.terms@[k].1) == kk by {
                if kk == key {
                    assert((self.terms@[n].0@, self.terms@[n].1) == kk);
                } else {
                    let k = choose|k: int| 0 <= k < before.len() && (before[k].0@, before[k].1) == kk;
                    assert(self.terms@[k] == before[k]);
                }
            }
            assert(self.doc_lengths == old(self).doc_lengths);
            assert(self.length_map == old(self).length_map);
            assert(self.field_stats == old(self).field_stats);
            assert(self.stats_map == old(self).stats_map);
            assert(forall|k: (DocId, XPathId)| #[trigger] self.length_map@.contains_key(k) ==> exists|i: int|
                0 <= i < self.doc_lengths@.len() && (self.doc_lengths@[i].0, self.doc_lengths@[i].1) == k);
            assert(forall|k: XPathId| #[trigger] self.stats_map@.contains_key(k) ==> exists|i: int|
                0 <= i < self.field_stats@.len() && self.field_stats@[i].0 == k);
        }
    }

    /// Keeping the term map in step with one list changed in place.
    proof fn lemma_terms_updated(&self, before: Seq<(String, XPathId, PostingList)>, i: int)
        requires
            0 <= i < before.len(),
            self.terms@.len() == before.len(),
            forall|k: int| 0 <= k < before.len() && k != i ==> self.terms@[k] == before[k],
            self.terms@[i].0 == before[i].0,
            self.terms@[i].1 == before[i].1,
            self.terms@[i].2.wf(),
            forall|a: int, b: int| 0 <= a < b < before.len() ==> (before[a].0@, before[a].1) != (before[b].0@, before[b].1),
            self.term_map@.dom() == self.term_map@.dom().insert((before[i].0@, before[i].1)),
            self.term_map@[(before[i].0@, before[i].1)] == self.terms@[i].2@,
            forall|k: int| 0 <= k < before.len() && k != i ==> {
                &&& self.term_map@.contains_key((#[trigger] before[k].0@, before[k].1))
                &&& self.term_map@[(before[k].0@, before[k].1)] == before[k].2@
                &&& before[k].2.wf()
            },
            forall|kk: (Seq<char>, XPathId)| #[trigger] self.term_map@.contains_key(kk) ==> exists|k: int|
                0 <= k < before.len() && (before[k].0@, before[k].1) == kk,
        ensures
            forall|a: int, b: int|
                0 <= a < b < self.terms@.len() ==> (self.terms@[a].0@, self.terms@[a].1) != (self.terms@[b].0@, self.terms@[b].1),
            forall|a: int| 0 <= a < self.terms@.len() ==> {
                &&& self.term_map@.contains_key((#[trigger] self.terms@[a].0@, self.terms@[a].1))
                &&& self.term_map@[(self.terms@[a].0@, self.terms@[a].1)] == self.terms@[a].2@
                &&& self.terms@[a].2.wf()
            },
            forall|kk: (Seq<char>, XPathId)| #[trigger] self.term_map@.contains_key(kk) ==> exists|k: int|
                0 <= k < self.terms@.len() && (self.terms@[k].0@, self.terms@[k].1) == kk,
    {
        assert forall|a: int, b: int| 0 <= a < b < self.terms@.len() implies (self.terms@[a].0@, self.terms@[a].1) != (
            self.terms@[b].0@,
            self.terms@[b].1,
        ) by {
            assert((self.terms@[a].0@, self.terms@[a].1) == (before[a].0@, before[a].1));
            assert((self.terms@[b].0@, self.terms@[b].1) == (before[b].0@, before[b].1));
        }
        assert forall|kk: (Seq<char>, XPathId)| #[trigger] self.term_map@.contains_key(kk) implies exists|k: int|
            0 <= k < self.terms@.len() && (self.terms@[k].0@, self.terms@[k].1) == kk by {
            let k = choose|k: int| 0 <= k < before.len() && (before[k].0@, before[k].1) == kk;
            assert((self.terms@[k].0@, self.terms@[k].1) == (before[k].0@, before[k].1));
        }
        assert forall|a: int| 0 <= a < self.terms@.len() implies {
            &&& self.term_map@.contains_key((#[trigger] self.terms@[a].0@, self.terms@[a].1))
            &&& self.term_map@[(self.terms@[a].0@, self.terms@[a].1)] == self.terms@[a].2@
            &&& self.terms@[a].2.wf()
        } by {
            if a == i {
                assert((self.terms@[a].0@, self.terms@[a].1) == (before[i].0@, before[i].1));
            } else {
                assert(self.terms@[a] == before[a]);
            }
        }
    }

    /// The postings of `term` in `xpath`, if there are any.
    pub fn lookup(&self, term: &str, xpath: XPathId) -> (r: Option<&PostingList>)
        requires
            self.wf(),
        ensures
            match r {
                Some(l) => self.postings().contains_key((term@, xpath)) && l@ == self.postings()[(term@, xpath)] && l.wf(),
                None => !self.postings().contains_key((term@, xpath)),
            },
    {
        match self.find_term(term, xpath) {
            Some(i) => Some(&self.terms[i].2),
            None => None,
        }
    }

    /// The postings of `term` in `xpath`, empty where there are none.
    pub fn lookup_or_empty(&self, term: &str, xpath: XPathId) -> (r: PostingList)
        requires
            self.wf(),
        ensures
            r.wf(),
            r@ == (if self.postings().contains_key((term@, xpath)) {
                self.postings()[(term@, xpath)]
            } else {
                empty_postings()
            }),
    {
        match self.lookup(term, xpath) {
            Some(l) => l.duplicate(),
            None => {
                let r = PostingList::new();
                assert(r@ == empty_postings());
                r
            },
        }
    }

    /// The postings of every entry whose key satisfies `keep`, entry after entry.
    pub closed spec fn items_where(&self, keep: spec_fn((Seq<char>, XPathId)) -> bool) -> Seq<PostingV> {
        items_where_in(self.terms@, keep)
    }

    /// The postings of `term` in every field path, merged: one posting per document (see
    /// `merged_from`).
    pub fn lookup_all_xpaths(&self, term: &str) -> (r: PostingList)
        requires
            self.wf(),
        ensures
            r.wf(),
            merged_from(self.items_where(|k: (Seq<char>, XPathId)| k.0 == term@), r@.items),
    {
        let ghost keep = |k: (Seq<char>, XPathId)| k.0 == term@;
        let mut items: Vec<Posting> = Vec::new();
        let mut i: usize = 0;
        while i < self.terms.len()
            invariant
                i <= self.terms@.len(),
                keep == (|k: (Seq<char>, XPathId)| k.0 == term@),
                views(items@) == items_where_in(self.terms@.subrange(0, i as int), keep),
            decreases self.terms@.len() - i,
        {
            proof {
                assert(self.terms@.subrange(0, i + 1).drop_last() =~= self.terms@.subrange(0, i as int));
            }
            if text_eq(self.terms[i].0.as_str(), term) {
                append_items(&mut items, self.terms[i].2.items());
            }
            i += 1;
        }
        assert(self.terms@.subrange(0, self.terms@.len() as int) =~= self.terms@);
        PostingList::from_items(items)
    }

    /// The postings in `xpath` of every term that starts with `prefix`, merged: one posting per
    /// document (see `merged_from`).
    pub fn lookup_prefix(&self, prefix: &str, xpath: XPathId) -> (r: PostingList)
        requires
            self.wf(),
        ensures
            r.wf(),
            merged_from(
                self.items_where(|k: (Seq<char>, XPathId)| k.1 == xpath && prefix@.is_prefix_of(k.0)),
                r@.items,
            ),
    {
        let ghost keep = |k: (Seq<char>, XPathId)| k.1 == xpath && prefix@.is_prefix_of(k.0);
        let pchars = chars_of(prefix);
        let mut items: Vec<Posting> = Vec::new();
        let mut i: usize = 0;
        while i < self.terms.len()
            invariant
                i <= self.terms@.len(),
                pchars@ == prefix@,
                keep == (|k: (Seq<char>, XPathId)| k.1 == xpath && prefix@.is_prefix_of(k.0)),
                views(items@) == items_where_in(self.terms@.subrange(0, i as int), keep),
            decreases self.terms@.len() - i,
        {
            proof {
                assert(self.terms@.subrange(0, i + 1).drop_last() =~= self.terms@.subrange(0, i as int));
            }
            if self.terms[i].1 == xpath && starts_with(self.terms[i].0.as_str(), pchars.as_slice()) {
                append_items(&mut items, self.terms[i].2.items());
            }
            i += 1;
        }
        assert(self.terms@.subrange(0, self.terms@.len() as int) =~= self.terms@);
        PostingList::from_items(items)
    }

    /// Where the length of `doc_id` in `xpath` stands, if it is recorded.
    fn find_length(&self, doc_id: DocId, xpath: XPathId) -> (r: Option<usize>)
        requires
            self.wf(),
        ensures
            match r {
                Some(i) => i < self.doc_lengths@.len() && self.doc_lengths@[i as int].0 == doc_id
                    && self.doc_lengths@[i as int].1 == xpath,
                None => !self.lengths().contains_key((doc_id, xpath)),
            },
    {
        let mut i: usize = 0;
        while i < self.doc_lengths.len()
            invariant
                i <= self.doc_lengths@.len(),
                forall|k: int| 0 <= k < i ==> (self.doc_lengths@[k].0, self.doc_lengths@[k].1) != (doc_id, xpath),
            decreases self.doc_lengths@.len() - i,
        {
            if self.doc_lengths[i].0 == doc_id && self.doc_lengths[i].1 == xpath {
                return Some(i);
            }
            i += 1;
        }
        None
    }

    /// The number of tokens of `doc_id` in `xpath`, if it is recorded.
    pub fn doc_len(&self, doc_id: DocId, xpath: XPathId) -> (r: Option<u32>)
        requires
            self.wf(),
        ensures
            r == (if self.lengths().contains_key((doc_id, xpath)) {
                Some(self.lengths()[(doc_id, xpath)])
            } else {
                None::<u32>
            }),
    {
        match self.find_length(doc_id, xpath) {
            Some(i) => Some(self.doc_lengths[i].2),
            None => None,
        }
    }

    /// Records that `doc_id` has `len` tokens in `xpath`.
    fn set_length(&mut self, doc_id: DocId, xpath: XPathId, len: u32)
        requires
            old(self).wf(),
        ensures
            final(self).wf(),
            final(self).lengths() == old(self).lengths().insert((doc_id, xpath), len),
            final(self).postings() == old(self).postings(),
            final(self).stats() == old(self).stats(),
    {
        let ghost key = (doc_id, xpath);
        let ghost before = self.doc_lengths@;
        match self.find_length(doc_id, xpath) {
            Some(i) => {
                self.doc_lengths.set(i, (doc_id, xpath, len));
                proof {
                    self.length_map@ = self.length_map@.insert(key, len);
                    assert forall|a: int, b: int| 0 <= a < b < self.doc_lengths@.len() implies (self.doc_lengths@[a].0, self.doc_lengths@[a].1)
                        != (self.doc_lengths@[b].0, self.doc_lengths@[b].1) by {
                        assert((before[a].0, before[a].1) != (before[b].0, before[b].1));
                    }
                    assert forall|a: int| 0 <= a < self.doc_lengths@.len() implies {
                        &&& self.length_map@.contains_key((#[trigger] self.doc_lengths@[a].0, self.doc_lengths@[a].1))
                        &&& self.length_map@[(self.doc_lengths@[a].0, self.doc_lengths@[a].1)] == self.doc_lengths@[a].2
                    } by {
                        if a != i {
                            assert(old(self).length_map@.contains_key((before[a].0, before[a].1)));
                            assert((before[a].0, before[a].1) != (before[i as int].0, before[i as int].1));
                        }
                    }
                    assert forall|kk: (DocId, XPathId)| #[trigger] self.length_map@.contains_key(kk) implies exists|k: int|
                        0 <= k < self.doc_lengths@.len() && (self.doc_lengths@[k].0, self.doc_lengths@[k].1) == kk by {
                        if kk == key {
                            assert((self.doc_lengths@[i as int].0, self.doc_lengths@[i as int].1) == kk);
                        } else {
                            let k = choose|k: int| 0 <= k < before.len() && (before[k].0, before[k].1) == kk;
                            assert((self.doc_lengths@[k].0, self.doc_lengths@[k].1) == kk);
                        }
                    }
                }
            },
            None => {
                self.doc_lengths.push((doc_id, xpath, len));
                proof {
                    let n = before.len() as int;
                    self.length_map@ = self.length_map@.insert(key, len);
                    assert forall|a: int, b: int| 0 <= a < b < self.doc_lengths@.len() implies (self.doc_lengths@[a].0, self.doc_lengths@[a].1)
                        != (self.doc_lengths@[b].0, self.doc_lengths@[b].1) by {
                        if b == n {
                            assert(old(self).length_map@.contains_key((before[a].0, before[a].1)));
                        } else {
                            assert((before[a].0, before[a].1) != (before[b].0, before[b].1));
                        }
                    }
                    assert forall|a: int| 0 <= a < self.doc_lengths@.len() implies {
                        &&& self.length_map@.contains_key((#[trigger] self.doc_lengths@[a].0, self.doc_lengths@[a].1))
                        &&& self.length_map@[(self.doc_lengths@[a].0, self.doc_lengths@[a].1)] == self.doc_lengths@[a].2
                    } by {
                        if a < n {
                            assert(old(self).length_map@.contains_key((before[a].0, before[a].1)));
                        }
                    }
                    assert forall|kk: (DocId, XPathId)| #[trigger] self.length_map@.contains_key(kk) implies exists|k: int|
                        0 <= k < self.doc_lengths@.len() && (self.doc_lengths@[k].0, self.doc_lengths@[k].1) == kk by {
                        if kk == key {
                            assert((self.doc_lengths@[n].0, self.doc_lengths@[n].1) == kk);
                        } else {
                            let k = choose|k: int| 0 <= k < before.len() && (before[k].0, before[k].1) == kk;
                            assert((self.doc_lengths@[k].0, self.doc_lengths@[k].1) == kk);
                        }
                    }
                }
            },
        }
        proof {
            assert(self.terms == old(self).terms);
            assert(self.term_map == old(self).term_map);
            assert(self.field_stats == old(self).field_stats);
            assert(self.stats_map == old(self).stats_map);
            assert(forall|k: (Seq<char>, XPathId)| #[trigger] self.term_map@.contains_key(k) ==> exists|i: int|
                0 <= i < self.terms@.len() && (self.terms@[i].0@, self.terms@[i].1) == k);
            assert(forall|k: XPathId| #[trigger] self.stats_map@.contains_key(k) ==> exists|i: int|
                0 <= i < self.field_stats@.len() && self.field_stats@[i].0 == k);
        }
    }

    /// Where the statistics of `xpath` stand, if there are any.
    fn find_stats(&self, xpath: XPathId) -> (r: Option<usize>)
        requires
            self.wf(),
        ensures
            match r {
                Some(i) => i < self.field_stats@.len() && self.field_stats@[i as int].0 == xpath,
                None => !self.stats().contains_key(xpath),
            },
    {
        let mut i: usize = 0;
        while i < self.field_stats.len()
            invariant
                i <= self.field_stats@.len(),
                forall|k: int| 0 <= k < i ==> self.field_stats@[k].0 != xpath,
            decreases self.field_stats@.len() - i,
        {
            if self.field_stats[i].0 == xpath {
                return Some(i);
            }
            i += 1;
        }
        None
    }

    /// How many documents have `xpath`.
    pub fn doc_count(&self, xpath: XPathId) -> (r: u64)
        requires
            self.wf(),
        ensures
            r == (if self.stats().contains_key(xpath) {
                self.stats()[xpath].doc_count
            } else {
                0
            }),
    {
        match self.find_stats(xpath) {
            Some(i) => self.field_stats[i].1.doc_count,
            None => 0,
        }
    }

    /// How many tokens the documents hold in `xpath` together.
    pub fn total_doc_len(&self, xpath: XPathId) -> (r: u64)
        requires
            self.wf(),
        ensures
            r == (if self.stats().contains_key(xpath) {
                self.stats()[xpath].total_doc_len
            } else {
                0
            }),
    {
        match self.find_stats(xpath) {
            Some(i) => self.field_stats[i].1.total_doc_len,
            None => 0,
        }
    }

    /// Counts one more document of `len` tokens in `xpath`.
    fn count_document(&mut self, xpath: XPathId, len: u32)
        requires
            old(self).wf(),
            old(self).stats().contains_key(xpath) ==> old(self).stats()[xpath].doc_count < u64::MAX
                && old(self).stats()[xpath].total_doc_len + len <= u64::MAX,
        ensures
            final(self).wf(),
            final(self).stats() == old(self).stats().insert(xpath, counted(old(self).stats(), xpath, len)),
            final(self).postings() == old(self).postings(),
            final(self).lengths() == old(self).lengths(),
    {
        let ghost before = self.field_stats@;
        match self.find_stats(xpath) {
            Some(i) => {
                let st = self.field_stats[i].1;
                assert(old(self).stats_map@.contains_key(xpath));
                let next = FieldStats { doc_count: st.doc_count + 1, total_doc_len: st.total_doc_len + len as u64 };
                self.field_stats.set(i, (xpath, next));
                proof {
                    self.stats_map@ = self.stats_map@.insert(xpath, next);
                    assert forall|a: int, b: int| 0 <= a < b < self.field_stats@.len() implies self.field_stats@[a].0
                        != self.field_stats@[b].0 by {
                        assert(before[a].0 != before[b].0);
                    }
                    assert forall|a: int| 0 <= a < self.field_stats@.len() implies {
                        &&& self.stats_map@.contains_key(#[trigger] self.field_stats@[a].0)
                        &&& self.stats_map@[self.field_stats@[a].0] == self.field_stats@[a].1
                    } by {
                        if a != i {
                            assert(old(self).stats_map@.contains_key(before[a].0));
                            assert(before[a].0 != before[i as int].0);
                        }
                    }
                    assert forall|kk: XPathId| #[trigger] self.stats_map@.contains_key(kk) implies exists|k: int|
                        0 <= k < self.field_stats@.len() && self.field_stats@[k].0 == kk by {
                        if kk == xpath {
                            assert(self.field_stats@[i as int].0 == kk);
                        } else {
                            let k = choose|k: int| 0 <= k < before.len() && before[k].0 == kk;
                            assert(self.field_stats@[k].0 == kk);
                        }
                    }
                }
            },
            None => {
                let next = FieldStats { doc_count: 1, total_doc_len: len as u64 };
                self.field_stats.push((xpath, next));
                proof {
                    let n = before.len() as int;
                    self.stats_map@ = self.stats_map@.insert(xpath, next);
                    assert forall|a: int, b: int| 0 <= a < b < self.field_stats@.len() implies self.field_stats@[a].0
                        != self.field_stats@[b].0 by {
                        if b == n {
                            assert(old(self).stats_map@.contains_key(before[a].0));
                        } else {
                            assert(before[a].0 != before[b].0);
                        }
                    }
                    assert forall|a: int| 0 <= a < self.field_stats@.len() implies {
                        &&& self.stats_map@.contains_key(#[trigger] self.field_stats@[a].0)
                        &&& self.stats_map@[self.field_stats@[a].0] == self.field_stats@[a].1
                    } by {
                        if a < n {
                            assert(old(self).stats_map@.contains_key(before[a].0));
                        }
                    }
                    assert forall|kk: XPathId| #[trigger] self.stats_map@.contains_key(kk) implies exists|k: int|
                        0 <= k < self.field_stats@.len() && self.field_stats@[k].0 == kk by {
                        if kk == xpath {
                            assert(self.field_stats@[n].0 == kk);
                        } else {
                            let k = choose|k: int| 0 <= k < before.len() && before[k].0 == kk;
                            assert(self.field_stats@[k].0 == kk);
                        }
                    }
                }
            },
        }
        proof {
            assert(self.terms == old(self).terms);
            assert(self.term_map == old(self).term_map);
            assert(self.doc_lengths == old(self).doc_lengths);
            assert(self.length_map == old(self).length_map);
            assert(forall|k: (Seq<char>, XPathId)| #[trigger] self.term_map@.contains_key(k) ==> exists|i: int|
                0 <= i < self.terms@.len() && (self.terms@[i].0@, self.terms@[i].1) == k);
            assert(forall|k: (DocId, XPathId)| #[trigger] self.length_map@.contains_key(k) ==> exists|i: int|
                0 <= i < self.doc_lengths@.len() && (self.doc_lengths@[i].0, self.doc_lengths@[i].1) == k);
        }
    }

    /// Records one part of a document: `tokens`, the analyzed text of `xpath` in `doc_id`. The
    /// part's length is its number of tokens (capped at `u32::MAX`) and counts in the field's
    /// statistics; each distinct term gets all its positions with the weight of the part: the
    /// minimum weight plus the term's count, capped at the maximum.
    pub fn add_document_weighted(
        &mut self,
        doc_id: DocId,
        xpath: XPathId,
        tokens: &[Token],
        min_weight: u16,
        max_weight: u16,
    )
        requires
            old(self).wf(),
            old(self).stats().contains_key(xpath) ==> old(self).stats()[xpath].doc_count < u64::MAX
                && old(self).stats()[xpath].total_doc_len + part_length(tokens@.len()) <= u64::MAX,
        ensures
            final(self).wf(),
            final(self).lengths() == old(self).lengths().insert((doc_id, xpath), part_length(tokens@.len())),
            final(self).stats() == old(self).stats().insert(
                xpath,
                counted(old(self).stats(), xpath, part_length(tokens@.len())),
            ),
            final(self).postings().dom() == old(self).postings().dom().union(
                Set::new(|k: (Seq<char>, XPathId)| k.1 == xpath && distinct_texts(tokens@).contains(k.0)),
            ),
            forall|k: (Seq<char>, XPathId)|
                #![trigger final(self).postings()[k]]
                old(self).postings().contains_key(k) && !(k.1 == xpath && distinct_texts(tokens@).contains(k.0))
                    ==> final(self).postings()[k] == old(self).postings()[k],
            forall|t: Seq<char>| #[trigger] distinct_texts(tokens@).contains(t) ==> inserted_all(
                if old(self).postings().contains_key((t, xpath)) {
                    old(self).postings()[(t, xpath)]
                } else {
                    empty_postings()
                },
                final(self).postings()[(t, xpath)],
                doc_id,
                positions_in(tokens@, t),
                part_weight(positions_in(tokens@, t).len(), min_weight, max_weight),
            ),
    {
        let n = tokens.len();
        let len: u32 = if n > 0xFFFF_FFFF {
            0xFFFF_FFFF
        } else {
            n as u32
        };
        self.set_length(doc_id, xpath, len);
        self.count_document(xpath, len);
        let groups = group_tokens(tokens);
        let ghost d = distinct_texts(tokens@);
        let ghost p0 = self.postings();
        proof {
            lemma_distinct_texts(tokens@);
        }
        let mut g: usize = 0;
        while g < groups.len()
            invariant
                self.wf(),
                g <= groups@.len(),
                groups@.len() == d.len(),
                d == distinct_texts(tokens@),
                d.no_duplicates(),
                forall|h: int| 0 <= h < groups@.len() ==> (#[trigger] groups@[h]).0@ == d[h] && groups@[h].1@ == positions_in(
                    tokens@,
                    d[h],
                ),
                forall|t: Seq<char>| d.contains(t) ==> #[trigger] positions_in(tokens@, t).len() > 0,
                p0 == old(self).postings(),
                self.lengths() == old(self).lengths().insert((doc_id, xpath), len),
                self.stats() == old(self).stats().insert(xpath, counted(old(self).stats(), xpath, len)),
                len == part_length(tokens@.len()),
                self.postings().dom() == p0.dom().union(
                    Set::new(|k: (Seq<char>, XPathId)| k.1 == xpath && d.subrange(0, g as int).contains(k.0)),
                ),
                forall|k: (Seq<char>, XPathId)|
                    #![trigger self.postings()[k]]
                    p0.contains_key(k) && !(k.1 == xpath && d.subrange(0, g as int).contains(k.0))
                        ==> self.postings()[k] == p0[k],
                forall|t: Seq<char>| #[trigger] d.subrange(0, g as int).contains(t) ==> inserted_all(
                    if p0.contains_key((t, xpath)) {
                        p0[(t, xpath)]
                    } else {
                        empty_postings()
                    },
                    self.postings()[(t, xpath)],
                    doc_id,
                    positions_in(tokens@, t),
                    part_weight(positions_in(tokens@, t).len(), min_weight, max_weight),
                ),
            decreases groups@.len() - g,
        {
            let count = groups[g].1.len();
            let occ: u16 = if count > 0xFFFF {
                0xFFFF
            } else {
                count as u16
            };
            let weight = {
                let raised = min_weight.saturating_add(occ);
                if raised < max_weight {
                    raised
                } else {
                    max_weight
                }
            };
            let ghost t = d[g as int];
            let ghost before = self.postings();
            let positions = clone_positions(&groups[g].1);
            proof {
                assert(groups@[g as int].0@ == t);
                assert(d.contains(t));
                assert(weight == part_weight(positions_in(tokens@, t).len(), min_weight, max_weight));
                assert(!d.subrange(0, g as int).contains(t)) by {
                    if d.subrange(0, g as int).contains(t) {
                        let j = choose|j: int| 0 <= j < g && d.subrange(0, g as int)[j] == t;
                        assert(d[j] == d[g as int]);
                    }
                }
            }
            self.add_posting_weighted(groups[g].0.as_str(), xpath, doc_id, positions, weight);
            proof {
                let dg = d.subrange(0, g + 1);
                assert(dg =~= d.subrange(0, g as int).push(t));
                assert forall|u: Seq<char>| dg.contains(u) <==> (d.subrange(0, g as int).contains(u) || u == t) by {
                    if dg.contains(u) {
                        let j = choose|j: int| 0 <= j < dg.len() && dg[j] == u;
                        if j < g {
                            assert(d.subrange(0, g as int)[j] == u);
                        }
                    }
                    if d.subrange(0, g as int).contains(u) {
                        let j = choose|j: int| 0 <= j < g && d.subrange(0, g as int)[j] == u;
                        assert(dg[j] == u);
                    }
                    if u == t {
                        assert(dg[g as int] == u);
                    }
                }
                assert(self.postings().dom() =~= p0.dom().union(
                    Set::new(|k: (Seq<char>, XPathId)| k.1 == xpath && dg.contains(k.0)),
                ));
                assert forall|k: (Seq<char>, XPathId)|
                    #![trigger self.postings()[k]]
                    p0.contains_key(k) && !(k.1 == xpath && dg.contains(k.0)) implies self.postings()[k] == p0[k] by {
                    assert(!(k.1 == xpath && d.subrange(0, g as int).contains(k.0)));
                    assert(k != (t, xpath));
                    assert(before.contains_key(k));
                    assert(before[k] == p0[k]);
                }
                assert forall|u: Seq<char>| #[trigger] dg.contains(u) implies inserted_all(
                    if p0.contains_key((u, xpath)) {
                        p0[(u, xpath)]
                    } else {
                        empty_postings()
                    },
                    self.postings()[(u, xpath)],
                    doc_id,
                    positions_in(tokens@, u),
                    part_weight(positions_in(tokens@, u).len(), min_weight, max_weight),
                ) by {
                    if u != t {
                        assert(d.subrange(0, g as int).contains(u));
                        assert(before.contains_key((u, xpath)));
                        assert((u, xpath) != (t, xpath));
                        assert(self.postings()[(u, xpath)] == before[(u, xpath)]);
                    } else {
                        assert(before.contains_key((t, xpath)) == p0.contains_key((t, xpath)));
                        if p0.contains_key((t, xpath)) {
                            assert(before[(t, xpath)] == p0[(t, xpath)]);
                        }
                        assert(groups@[g as int].1@ == positions_in(tokens@, t));
                        assert(positions_in(tokens@, t).len() > 0);
                    }
                }
            }
            g += 1;
        }
        proof {
            assert(d.subrange(0, d.len() as int) =~= d);
        }
    }

    /// There are as many keys with postings as entries.
    proof fn lemma_term_count(&self)
        requires
            self.wf(),
        ensures
            self.postings().dom().len() == self.terms@.len(),
            self.postings().dom().finite(),
    {
        let ks = self.terms@.map_values(|e: (String, XPathId, PostingList)| (e.0@, e.1));
        assert(ks.no_duplicates()) by {
            assert forall|a: int, b: int| 0 <= a < ks.len() && 0 <= b < ks.len() && a != b implies ks[a] != ks[b] by {
                if a < b {
                    assert((self.terms@[a].0@, self.terms@[a].1) != (self.terms@[b].0@, self.terms@[b].1));
                } else {
                    assert((self.terms@[b].0@, self.terms@[b].1) != (self.terms@[a].0@, self.terms@[a].1));
                }
            }
        }
        ks.unique_seq_to_set();
        assert(self.postings().dom() =~= ks.to_set()) by {
            assert forall|kk: (Seq<char>, XPathId)| self.postings().dom().contains(kk) <==> ks.to_set().contains(kk) by {
                if self.postings().dom().contains(kk) {
                    let k = choose|k: int| 0 <= k < self.terms@.len() && (self.terms@[k].0@, self.terms@[k].1) == kk;
                    assert(ks[k] == kk);
                }
                if ks.to_set().contains(kk) {
                    let k = choose|k: int| 0 <= k < ks.len() && ks[k] == kk;
                    assert(self.term_map@.contains_key((self.terms@[k].0@, self.terms@[k].1)));
                }
            }
        }
    }

    /// How many (term, field path) keys have postings.
    pub fn term_count(&self) -> (r: usize)
        requires
            self.wf(),
        ensures
            r == self.postings().dom().len(),
    {
        proof {
            self.lemma_term_count();
        }
        self.terms.len()
    }
}

} // verus!

verus! {

/// Recording an occurrence of a term leaves a posting for the document that holds the position,
/// and keeps every other document's posting as it was.
pub proof fn lemma_recorded_occurrence(
    before: PostingListV,
    after: PostingListV,
    doc_id: DocId,
    position: Position,
    weight: u16,
    other: DocId,
)
    requires
        inserted_once(before, after, doc_id, position, weight),
        other != doc_id,
    ensures
        exists|i: int| 0 <= i < after.items.len() && after.items[i].doc_id == doc_id
            && after.items[i].positions.contains(position),
        has_doc(after.items, other) == has_doc(before.items, other),
        forall|i: int| 0 <= i < before.items.len() && before.items[i].doc_id == other
            ==> #[trigger] after.items.contains(before.items[i]),
{
    if has_doc(before.items, doc_id) {
        let i = choose|i: int| 0 <= i < before.items.len() && before.items[i].doc_id == doc_id;
        let p = after.items[i];
        assert(p.positions[p.positions.len() - 1] == position);
        assert(after.items[i].doc_id == doc_id && after.items[i].positions.contains(position));
        if has_doc(after.items, other) {
            let j = choose|j: int| 0 <= j < after.items.len() && after.items[j].doc_id == other;
            assert(before.items[j].doc_id == other);
        }
        if has_doc(before.items, other) {
            let j = choose|j: int| 0 <= j < before.items.len() && before.items[j].doc_id == other;
            assert(after.items[j].doc_id == other);
        }
        assert forall|j: int| 0 <= j < before.items.len() && before.items[j].doc_id == other
            implies #[trigger] after.items.contains(before.items[j]) by {
            assert(after.items[j] == before.items[j]);
        }
    } else {
        let k = choose|k: int| 0 <= k <= before.items.len()
            && after.items == before.items.insert(k, PostingV { doc_id, positions: seq![position], weight });
        assert(after.items[k].positions[0] == position);
        assert(after.items[k].doc_id == doc_id && after.items[k].positions.contains(position));
        if has_doc(after.items, other) {
            let j = choose|j: int| 0 <= j < after.items.len() && after.items[j].doc_id == other;
            if j < k {
                assert(before.items[j].doc_id == other);
            } else {
                assert(j > k);
                assert(before.items[j - 1].doc_id == other);
            }
        }
        if has_doc(before.items, other) {
            let j = choose|j: int| 0 <= j < before.items.len() && before.items[j].doc_id == other;
            if j < k {
                assert(after.items[j].doc_id == other);
            } else {
                assert(after.items[j + 1].doc_id == other);
            }
        }
        assert forall|j: int| 0 <= j < before.items.len() && before.items[j].doc_id == other
            implies #[trigger] after.items.contains(before.items[j]) by {
            if j < k {
                assert(after.items[j] == before.items[j]);
            } else {
                assert(after.items[j + 1] == before.items[j]);
            }
        }
    }
}

} // verus!
