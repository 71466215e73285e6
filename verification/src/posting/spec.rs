use vstd::prelude::*;

use crate::posting::item::{Posting, PostingV};
use crate::types::{DocId, Position};

verus! {

/// The postings of a vector, taken by value.
pub open spec fn views(v: Seq<Posting>) -> Seq<PostingV> {
    v.map_values(|p: Posting| p@)
}

/// Document ids strictly increase along the sequence.
pub open spec fn docs_strictly_increasing(s: Seq<PostingV>) -> bool {
    forall|i: int, j: int| 0 <= i < j < s.len() ==> s[i].doc_id < s[j].doc_id
}

/// Document ids never decrease along the sequence.
pub open spec fn docs_nondecreasing(s: Seq<PostingV>) -> bool {
    forall|i: int, j: int| 0 <= i <= j < s.len() ==> s[i].doc_id <= s[j].doc_id
}

/// Every weight in the sequence is at most `w`.
pub open spec fn weights_bounded(s: Seq<PostingV>, w: u16) -> bool {
    forall|i: int| 0 <= i < s.len() ==> s[i].weight <= w
}

/// Some posting of the sequence is for document `d`.
pub open spec fn has_doc(s: Seq<PostingV>, d: DocId) -> bool {
    exists|i: int| 0 <= i < s.len() && s[i].doc_id == d
}

/// A position list that strictly increases.
pub open spec fn positions_strictly_increasing(p: Seq<Position>) -> bool {
    forall|i: int, j: int| 0 <= i < j < p.len() ==> p[i] < p[j]
}

/// A position list that never decreases.
pub open spec fn positions_nondecreasing(p: Seq<Position>) -> bool {
    forall|i: int, j: int| 0 <= i <= j < p.len() ==> p[i] <= p[j]
}

/// How many postings of `s` are for document `d`.
pub open spec fn count_doc(s: Seq<PostingV>, d: DocId) -> nat
    decreases s.len(),
{
    if s.len() == 0 {
        0
    } else {
        count_doc(s.drop_last(), d) + if s.last().doc_id == d {
            1nat
        } else {
            0nat
        }
    }
}

/// Every position that some posting of `s` for document `d` holds.
pub open spec fn positions_of(s: Seq<PostingV>, d: DocId) -> Set<Position>
    decreases s.len(),
{
    if s.len() == 0 {
        Set::empty()
    } else {
        positions_of(s.drop_last(), d).union(
            if s.last().doc_id == d {
                s.last().positions.to_set()
            } else {
                Set::empty()
            },
        )
    }
}

/// The largest weight among the postings of `s` for document `d` (0 if none).
pub open spec fn weight_of(s: Seq<PostingV>, d: DocId) -> u16
    decreases s.len(),
{
    if s.len() == 0 {
        0
    } else {
        let w = weight_of(s.drop_last(), d);
        if s.last().doc_id == d && s.last().weight > w {
            s.last().weight
        } else {
            w
        }
    }
}

/// The largest weight of any posting of `s` (0 if `s` is empty).
pub open spec fn max_weight_of(s: Seq<PostingV>) -> u16
    decreases s.len(),
{
    if s.len() == 0 {
        0
    } else {
        let w = max_weight_of(s.drop_last());
        if s.last().weight > w {
            s.last().weight
        } else {
            w
        }
    }
}

/// `r` is what merging the postings `src` by document gives: one posting per
/// document, in increasing document order; a document that occurs once keeps
/// its posting as it was, one that occurs more often gets the sorted,
/// duplicate-free union of the positions and the largest weight.
pub open spec fn merged_from(src: Seq<PostingV>, r: Seq<PostingV>) -> bool {
    &&& docs_strictly_increasing(r)
    &&& forall|d: DocId| has_doc(r, d) <==> has_doc(src, d)
    &&& forall|i: int|
        #![trigger r[i]]
        0 <= i < r.len() && count_doc(src, r[i].doc_id) == 1 ==> exists|j: int|
            0 <= j < src.len() && src[j] == r[i]
    &&& forall|i: int|
        #![trigger r[i]]
        0 <= i < r.len() && count_doc(src, r[i].doc_id) > 1 ==> {
            &&& positions_strictly_increasing(r[i].positions)
            &&& r[i].positions.to_set() == positions_of(src, r[i].doc_id)
            &&& r[i].weight == weight_of(src, r[i].doc_id)
        }
}

pub proof fn lemma_count_zero(s: Seq<PostingV>, d: DocId)
    ensures
        count_doc(s, d) == 0 <==> !has_doc(s, d),
        count_doc(s, d) == 0 ==> positions_of(s, d) == Set::<Position>::empty() && weight_of(s, d)
            == 0,
    decreases s.len(),
{
    if s.len() > 0 {
        lemma_count_zero(s.drop_last(), d);
        if has_doc(s.drop_last(), d) {
            let i = choose|i: int| 0 <= i < s.drop_last().len() && s.drop_last()[i].doc_id == d;
            assert(s[i].doc_id == d);
        }
        if has_doc(s, d) && s.last().doc_id != d {
            let i = choose|i: int| 0 <= i < s.len() && s[i].doc_id == d;
            assert(s.drop_last()[i].doc_id == d);
        }
        if count_doc(s, d) == 0 {
            assert(positions_of(s, d) =~= Set::<Position>::empty());
        }
    }
}

pub proof fn lemma_count_single(s: Seq<PostingV>, d: DocId, j: int)
    requires
        0 <= j < s.len(),
        s[j].doc_id == d,
        count_doc(s, d) == 1,
    ensures
        positions_of(s, d) == s[j].positions.to_set(),
        weight_of(s, d) == s[j].weight,
    decreases s.len(),
{
    let t = s.drop_last();
    if j == s.len() - 1 {
        lemma_count_zero(t, d);
        assert(positions_of(s, d) =~= s[j].positions.to_set());
    } else {
        assert(t[j].doc_id == d);
        if s.last().doc_id == d {
            lemma_count_zero(t, d);
            assert(has_doc(t, d));
            assert(false);
        }
        lemma_count_single(t, d, j);
        assert(positions_of(s, d) =~= positions_of(t, d));
    }
}

pub proof fn lemma_take_step(s: Seq<PostingV>, i: int, d: DocId)
    requires
        0 <= i < s.len(),
    ensures
        count_doc(s.take(i + 1), d) == count_doc(s.take(i), d) + if s[i].doc_id == d {
            1nat
        } else {
            0nat
        },
        positions_of(s.take(i + 1), d) == positions_of(s.take(i), d).union(
            if s[i].doc_id == d {
                s[i].positions.to_set()
            } else {
                Set::empty()
            },
        ),
        weight_of(s.take(i + 1), d) == if s[i].doc_id == d && s[i].weight > weight_of(
            s.take(i),
            d,
        ) {
            s[i].weight
        } else {
            weight_of(s.take(i), d)
        },
        max_weight_of(s.take(i + 1)) == if s[i].weight > max_weight_of(s.take(i)) {
            s[i].weight
        } else {
            max_weight_of(s.take(i))
        },
{
    assert(s.take(i + 1).drop_last() =~= s.take(i));
}

pub proof fn lemma_max_weight_bound(s: Seq<PostingV>)
    ensures
        weights_bounded(s, max_weight_of(s)),
        s.len() > 0 ==> exists|i: int| 0 <= i < s.len() && s[i].weight == max_weight_of(s),
    decreases s.len(),
{
    if s.len() > 0 {
        let t = s.drop_last();
        lemma_max_weight_bound(t);
        assert forall|i: int| 0 <= i < s.len() implies s[i].weight <= max_weight_of(s) by {
            if i < s.len() - 1 {
                assert(t[i].weight <= max_weight_of(t));
            }
        }
        if s.last().weight > max_weight_of(t) || t.len() == 0 {
            assert(s[s.len() - 1].weight == max_weight_of(s));
        } else {
            let i = choose|i: int| 0 <= i < t.len() && t[i].weight == max_weight_of(t);
            assert(s[i].weight == max_weight_of(s));
        }
    }
}

} // verus!
