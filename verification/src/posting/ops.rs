use vstd::prelude::*;

use crate::posting::deleted::{lemma_filter_in, lemma_filter_keeps_order};
use crate::posting::item::{Posting, PostingV};
use crate::posting::list::PostingList;
use crate::posting::spec::{
    docs_strictly_increasing, has_doc, lemma_max_weight_bound, max_weight_of, merged_from, views,
};
use crate::types::{DocId, Position};

verus! {

/// The sorted merge of two position lists: equal heads are kept once.
pub open spec fn merge_positions(a: Seq<Position>, b: Seq<Position>) -> Seq<Position>
    decreases a.len() + b.len(),
{
    if a.len() == 0 {
        b
    } else if b.len() == 0 {
        a
    } else if a[0] < b[0] {
        seq![a[0]] + merge_positions(a.drop_first(), b)
    } else if a[0] > b[0] {
        seq![b[0]] + merge_positions(a, b.drop_first())
    } else {
        seq![a[0]] + merge_positions(a.drop_first(), b.drop_first())
    }
}

/// The sorted merge of two posting lists: a document in both gets one
/// posting with the merged positions and the larger weight.
pub open spec fn union_postings(a: Seq<PostingV>, b: Seq<PostingV>) -> Seq<PostingV>
    decreases a.len() + b.len(),
{
    if a.len() == 0 {
        b
    } else if b.len() == 0 {
        a
    } else if a[0].doc_id < b[0].doc_id {
        seq![a[0]] + union_postings(a.drop_first(), b)
    } else if a[0].doc_id > b[0].doc_id {
        seq![b[0]] + union_postings(a, b.drop_first())
    } else {
        seq![PostingV {
            doc_id: a[0].doc_id,
            positions: merge_positions(a[0].positions, b[0].positions),
            weight: if a[0].weight >= b[0].weight { a[0].weight } else { b[0].weight },
        }] + union_postings(a.drop_first(), b.drop_first())
    }
}

/// The postings of `a` whose document also has a posting in `b`, in order.
pub open spec fn postings_also_in(a: Seq<PostingV>, b: Seq<PostingV>) -> Seq<PostingV> {
    a.filter(|p: PostingV| has_doc(b, p.doc_id))
}

/// The largest `k` with `2^k <= n` (0 for `n` below 2).
pub open spec fn log2_floor(n: nat) -> nat
    decreases n,
{
    if n < 2 {
        0
    } else {
        1 + log2_floor(n / 2)
    }
}

/// The estimated cost of galloping through the longer of two lists of
/// lengths `a` and `b`, saturated at the largest `usize`.
pub open spec fn gallop_cost(a: nat, b: nat) -> nat {
    let short = if a <= b { a } else { b };
    let long = if a <= b { b } else { a };
    let ratio = long / if short >= 1 { short } else { 1 };
    let steps = log2_floor(if ratio >= 1 { ratio } else { 1 }) + 1;
    if short * steps <= usize::MAX { short * steps } else { usize::MAX as nat }
}

/// The intersection that galloping gives: the postings of the shorter list
/// (the left one when both are equally long) whose document the other has.
pub open spec fn gallop_intersection(a: Seq<PostingV>, b: Seq<PostingV>) -> Seq<PostingV> {
    if a.len() <= b.len() {
        postings_also_in(a, b)
    } else {
        postings_also_in(b, a)
    }
}

proof fn lemma_merge_positions_sorted(a: Seq<Position>, b: Seq<Position>, lo: Position)
    requires
        crate::posting::spec::positions_strictly_increasing(a),
        crate::posting::spec::positions_strictly_increasing(b),
        forall|i: int| 0 <= i < a.len() ==> lo <= a[i],
        forall|i: int| 0 <= i < b.len() ==> lo <= b[i],
    ensures
        crate::posting::spec::positions_strictly_increasing(merge_positions(a, b)),
        merge_positions(a, b).to_set() == a.to_set().union(b.to_set()),
        forall|i: int| 0 <= i < merge_positions(a, b).len() ==> lo <= merge_positions(a, b)[i],
    decreases a.len() + b.len(),
{
    let m = merge_positions(a, b);
    if a.len() == 0 {
        assert(a.to_set() =~= Set::empty());
        assert(m.to_set() =~= a.to_set().union(b.to_set()));
    } else if b.len() == 0 {
        assert(b.to_set() =~= Set::empty());
        assert(m.to_set() =~= a.to_set().union(b.to_set()));
    } else {
        let (x, ra, rb) = if a[0] < b[0] {
            (a[0], a.drop_first(), b)
        } else if a[0] > b[0] {
            (b[0], a, b.drop_first())
        } else {
            (a[0], a.drop_first(), b.drop_first())
        };
        assert forall|i: int| 0 <= i < ra.len() implies x < ra[i] by {
            if a[0] < b[0] {
                assert(a[0] < a[i + 1]);
            } else if a[0] > b[0] {
                assert(a[0] <= a[i]);
            } else {
                assert(a[0] < a[i + 1]);
            }
        }
        assert forall|i: int| 0 <= i < rb.len() implies x < rb[i] by {
            if a[0] < b[0] {
                assert(b[0] <= b[i]);
            } else if a[0] > b[0] {
                assert(b[0] < b[i + 1]);
            } else {
                assert(b[0] < b[i + 1]);
            }
        }
        if x < u32::MAX {
            lemma_merge_positions_sorted(ra, rb, (x + 1) as Position);
        } else {
            assert(ra.len() == 0 && rb.len() == 0) by {
                if ra.len() > 0 {
                    assert(x < ra[0]);
                }
                if rb.len() > 0 {
                    assert(x < rb[0]);
                }
            }
            lemma_merge_positions_sorted(ra, rb, x);
        }
        let rest = merge_positions(ra, rb);
        assert(m == seq![x] + rest);
        assert forall|i: int, j: int| 0 <= i < j < m.len() implies m[i] < m[j] by {
            if i == 0 {
                assert(m[j] == rest[j - 1]);
            } else {
                assert(m[i] == rest[i - 1]);
                assert(m[j] == rest[j - 1]);
            }
        }
        assert(a.to_set() =~= (if a[0] < b[0] || a[0] == b[0] { ra.to_set().insert(a[0]) } else { ra.to_set() })) by {
            if a[0] <= b[0] {
                assert(a =~= seq![a[0]] + ra);
                assert forall|y: Position| a.to_set().contains(y) <==> ra.to_set().insert(a[0]).contains(y) by {
                    if a.to_set().contains(y) {
                        let k = choose|k: int| 0 <= k < a.len() && a[k] == y;
                        if k > 0 {
                            assert(ra[k - 1] == y);
                        }
                    }
                    if ra.to_set().contains(y) {
                        let k = choose|k: int| 0 <= k < ra.len() && ra[k] == y;
                        assert(a[k + 1] == y);
                    }
                    if y == a[0] {
                        assert(a[0] == y);
                    }
                }
            }
        }
        assert(b.to_set() =~= (if b[0] < a[0] || a[0] == b[0] { rb.to_set().insert(b[0]) } else { rb.to_set() })) by {
            if b[0] <= a[0] {
                assert forall|y: Position| b.to_set().contains(y) <==> rb.to_set().insert(b[0]).contains(y) by {
                    if b.to_set().contains(y) {
                        let k = choose|k: int| 0 <= k < b.len() && b[k] == y;
                        if k > 0 {
                            assert(rb[k - 1] == y);
                        }
                    }
                    if rb.to_set().contains(y) {
                        let k = choose|k: int| 0 <= k < rb.len() && rb[k] == y;
                        assert(b[k + 1] == y);
                    }
                    if y == b[0] {
                        assert(b[0] == y);
                    }
                }
            }
        }
        assert forall|y: Position| m.to_set().contains(y) <==> rest.to_set().insert(x).contains(y) by {
            if m.to_set().contains(y) {
                let k = choose|k: int| 0 <= k < m.len() && m[k] == y;
                if k > 0 {
                    assert(rest[k - 1] == y);
                }
            }
            if rest.to_set().contains(y) {
                let k = choose|k: int| 0 <= k < rest.len() && rest[k] == y;
                assert(m[k + 1] == y);
            }
            if y == x {
                assert(m[0] == y);
            }
        }
        assert(m.to_set() =~= a.to_set().union(b.to_set()));
        assert forall|i: int| 0 <= i < m.len() implies lo <= m[i] by {
            if i > 0 {
                assert(m[i] == rest[i - 1]);
            } else {
                if a[0] <= b[0] {
                    assert(lo <= a[0]);
                } else {
                    assert(lo <= b[0]);
                }
            }
        }
    }
}

/// Merging two strictly increasing position lists gives a strictly
/// increasing list of every position of either.
pub proof fn lemma_merge_positions(a: Seq<Position>, b: Seq<Position>)
    requires
        crate::posting::spec::positions_strictly_increasing(a),
        crate::posting::spec::positions_strictly_increasing(b),
    ensures
        crate::posting::spec::positions_strictly_increasing(merge_positions(a, b)),
        merge_positions(a, b).to_set() == a.to_set().union(b.to_set()),
{
    lemma_merge_positions_sorted(a, b, 0);
}

proof fn lemma_merge_positions_step(a: Seq<Position>, b: Seq<Position>, x: int, y: int)
    requires
        0 <= x <= a.len(),
        0 <= y <= b.len(),
    ensures
        x < a.len() && y < b.len() && a[x] < b[y] ==> merge_positions(a.skip(x), b.skip(y)) == seq![a[x]] + merge_positions(a.skip(x + 1), b.skip(y)),
        x < a.len() && y < b.len() && a[x] > b[y] ==> merge_positions(a.skip(x), b.skip(y)) == seq![b[y]] + merge_positions(a.skip(x), b.skip(y + 1)),
        x < a.len() && y < b.len() && a[x] == b[y] ==> merge_positions(a.skip(x), b.skip(y)) == seq![a[x]] + merge_positions(a.skip(x + 1), b.skip(y + 1)),
        x == a.len() ==> merge_positions(a.skip(x), b.skip(y)) == b.skip(y),
        y == b.len() ==> merge_positions(a.skip(x), b.skip(y)) == a.skip(x),
{
    if x < a.len() {
        assert(a.skip(x).drop_first() =~= a.skip(x + 1));
    }
    if y < b.len() {
        assert(b.skip(y).drop_first() =~= b.skip(y + 1));
    }
    if x == a.len() {
        assert(a.skip(x).len() == 0);
    }
    if y == b.len() {
        assert(b.skip(y).len() == 0);
    }
}

/// Merges the position lists `pa` and `pb` as `merge_positions` does.
fn merge_position_lists(pa: &Vec<Position>, pb: &Vec<Position>) -> (r: Vec<Position>)
    ensures
        r@ == merge_positions(pa@, pb@),
{
    let mut positions: Vec<Position> = Vec::new();
    let mut x: usize = 0;
    let mut y: usize = 0;
    proof {
        assert(pa@.skip(0) =~= pa@);
        assert(pb@.skip(0) =~= pb@);
    }
    while x < pa.len() && y < pb.len()
        invariant
            x <= pa.len(),
            y <= pb.len(),
            positions@ + merge_positions(pa@.skip(x as int), pb@.skip(y as int)) == merge_positions(pa@, pb@),
        decreases pa.len() + pb.len() - x - y,
    {
        proof {
            lemma_merge_positions_step(pa@, pb@, x as int, y as int);
        }
        let ghost before = positions@;
        if pa[x] < pb[y] {
            positions.push(pa[x]);
            x += 1;
        } else if pa[x] > pb[y] {
            positions.push(pb[y]);
            y += 1;
        } else {
            positions.push(pa[x]);
            x += 1;
            y += 1;
        }
        proof {
            assert(positions@ == before + seq![positions@.last()]);
        }
    }
    proof {
        lemma_merge_positions_step(pa@, pb@, x as int, y as int);
    }
    while x < pa.len()
        invariant
            x <= pa.len(),
            y <= pb.len(),
            x < pa.len() ==> y == pb.len(),
            y == pb.len() ==> positions@ + pa@.skip(x as int) == merge_positions(pa@, pb@),
            x == pa.len() ==> positions@ + pb@.skip(y as int) == merge_positions(pa@, pb@),
        decreases pa.len() - x,
    {
        proof {
            assert(pa@.skip(x as int) =~= seq![pa@[x as int]] + pa@.skip(x + 1));
        }
        positions.push(pa[x]);
        x += 1;
    }
    while y < pb.len()
        invariant
            y <= pb.len(),
            x == pa.len(),
            positions@ + pb@.skip(y as int) == merge_positions(pa@, pb@),
        decreases pb.len() - y,
    {
        proof {
            assert(pb@.skip(y as int) =~= seq![pb@[y as int]] + pb@.skip(y + 1));
        }
        positions.push(pb[y]);
        y += 1;
    }
    proof {
        assert(positions@ + pb@.skip(y as int) =~= positions@);
    }
    positions
}


proof fn lemma_union_postings_sorted(a: Seq<PostingV>, b: Seq<PostingV>, lo: DocId)
    requires
        docs_strictly_increasing(a),
        docs_strictly_increasing(b),
        forall|i: int| 0 <= i < a.len() ==> lo <= a[i].doc_id,
        forall|i: int| 0 <= i < b.len() ==> lo <= b[i].doc_id,
    ensures
        docs_strictly_increasing(union_postings(a, b)),
        forall|i: int| 0 <= i < union_postings(a, b).len() ==> lo <= union_postings(a, b)[i].doc_id,
        forall|d: DocId| has_doc(union_postings(a, b), d) <==> has_doc(a, d) || has_doc(b, d),
    decreases a.len() + b.len(),
{
    let m = union_postings(a, b);
    if a.len() == 0 {
        assert forall|d: DocId| has_doc(m, d) <==> has_doc(a, d) || has_doc(b, d) by {}
    } else if b.len() == 0 {
        assert forall|d: DocId| has_doc(m, d) <==> has_doc(a, d) || has_doc(b, d) by {}
    } else {
        let (x, ra, rb) = if a[0].doc_id < b[0].doc_id {
            (a[0].doc_id, a.drop_first(), b)
        } else if a[0].doc_id > b[0].doc_id {
            (b[0].doc_id, a, b.drop_first())
        } else {
            (a[0].doc_id, a.drop_first(), b.drop_first())
        };
        assert forall|i: int| 0 <= i < ra.len() implies x < ra[i].doc_id by {
            if a[0].doc_id < b[0].doc_id {
                assert(a[0].doc_id < a[i + 1].doc_id);
            } else if a[0].doc_id > b[0].doc_id {
                if i > 0 {
                    assert(a[0].doc_id < a[i].doc_id);
                }
            } else {
                assert(a[0].doc_id < a[i + 1].doc_id);
            }
        }
        assert forall|i: int| 0 <= i < rb.len() implies x < rb[i].doc_id by {
            if a[0].doc_id < b[0].doc_id {
                if i > 0 {
                    assert(b[0].doc_id < b[i].doc_id);
                }
            } else {
                assert(b[0].doc_id < b[i + 1].doc_id);
            }
        }
        if x < u64::MAX {
            lemma_union_postings_sorted(ra, rb, (x + 1) as DocId);
        } else {
            assert(ra.len() == 0 && rb.len() == 0) by {
                if ra.len() > 0 {
                    assert(x < ra[0].doc_id);
                }
                if rb.len() > 0 {
                    assert(x < rb[0].doc_id);
                }
            }
            lemma_union_postings_sorted(ra, rb, x);
        }
        let rest = union_postings(ra, rb);
        assert(m[0].doc_id == x);
        assert forall|i: int| 0 < i < m.len() implies m[i] == rest[i - 1] by {}
        assert forall|i: int, j: int| 0 <= i < j < m.len() implies m[i].doc_id < m[j].doc_id by {
            if i > 0 {
                assert(m[i] == rest[i - 1]);
            }
            assert(m[j] == rest[j - 1]);
        }
        assert forall|i: int| 0 <= i < m.len() implies lo <= m[i].doc_id by {
            if i > 0 {
                assert(m[i] == rest[i - 1]);
            } else if a[0].doc_id <= b[0].doc_id {
                assert(lo <= a[0].doc_id);
            } else {
                assert(lo <= b[0].doc_id);
            }
        }
        assert forall|d: DocId| has_doc(m, d) <==> has_doc(a, d) || has_doc(b, d) by {
            if has_doc(m, d) {
                let i = choose|i: int| 0 <= i < m.len() && m[i].doc_id == d;
                if i > 0 {
                    assert(rest[i - 1].doc_id == d);
                    assert(has_doc(ra, d) || has_doc(rb, d));
                    if has_doc(ra, d) {
                        let k = choose|k: int| 0 <= k < ra.len() && ra[k].doc_id == d;
                        if a[0].doc_id > b[0].doc_id {
                            assert(a[k].doc_id == d);
                        } else {
                            assert(a[k + 1].doc_id == d);
                        }
                    } else {
                        let k = choose|k: int| 0 <= k < rb.len() && rb[k].doc_id == d;
                        if a[0].doc_id < b[0].doc_id {
                            assert(b[k].doc_id == d);
                        } else {
                            assert(b[k + 1].doc_id == d);
                        }
                    }
                } else if a[0].doc_id <= b[0].doc_id {
                    assert(a[0].doc_id == d);
                } else {
                    assert(b[0].doc_id == d);
                }
            }
            if has_doc(a, d) {
                let k = choose|k: int| 0 <= k < a.len() && a[k].doc_id == d;
                if k == 0 && a[0].doc_id <= b[0].doc_id {
                    assert(m[0].doc_id == d);
                } else if a[0].doc_id > b[0].doc_id {
                    assert(ra[k].doc_id == d);
                    assert(has_doc(ra, d));
                    let i = choose|i: int| 0 <= i < rest.len() && rest[i].doc_id == d;
                    assert(m[i + 1].doc_id == d);
                } else {
                    assert(ra[k - 1].doc_id == d);
                    assert(has_doc(ra, d));
                    let i = choose|i: int| 0 <= i < rest.len() && rest[i].doc_id == d;
                    assert(m[i + 1].doc_id == d);
                }
            }
            if has_doc(b, d) {
                let k = choose|k: int| 0 <= k < b.len() && b[k].doc_id == d;
                if k == 0 && b[0].doc_id <= a[0].doc_id {
                    assert(m[0].doc_id == d);
                } else if a[0].doc_id < b[0].doc_id {
                    assert(rb[k].doc_id == d);
                    assert(has_doc(rb, d));
                    let i = choose|i: int| 0 <= i < rest.len() && rest[i].doc_id == d;
                    assert(m[i + 1].doc_id == d);
                } else {
                    assert(rb[k - 1].doc_id == d);
                    assert(has_doc(rb, d));
                    let i = choose|i: int| 0 <= i < rest.len() && rest[i].doc_id == d;
                    assert(m[i + 1].doc_id == d);
                }
            }
        }
    }
}

/// The union of two sorted posting lists holds exactly the documents of
/// either, in strictly increasing order.
pub proof fn lemma_union_postings(a: Seq<PostingV>, b: Seq<PostingV>)
    requires
        docs_strictly_increasing(a),
        docs_strictly_increasing(b),
    ensures
        docs_strictly_increasing(union_postings(a, b)),
        forall|d: DocId| has_doc(union_postings(a, b), d) <==> has_doc(a, d) || has_doc(b, d),
{
    lemma_union_postings_sorted(a, b, 0);
}

proof fn lemma_union_step(a: Seq<PostingV>, b: Seq<PostingV>, x: int, y: int)
    requires
        0 <= x <= a.len(),
        0 <= y <= b.len(),
    ensures
        x < a.len() && y < b.len() && a[x].doc_id < b[y].doc_id ==> union_postings(a.skip(x), b.skip(y)) == seq![a[x]] + union_postings(a.skip(x + 1), b.skip(y)),
        x < a.len() && y < b.len() && a[x].doc_id > b[y].doc_id ==> union_postings(a.skip(x), b.skip(y)) == seq![b[y]] + union_postings(a.skip(x), b.skip(y + 1)),
        x < a.len() && y < b.len() && a[x].doc_id == b[y].doc_id ==> union_postings(a.skip(x), b.skip(y)) == seq![PostingV {
            doc_id: a[x].doc_id,
            positions: merge_positions(a[x].positions, b[y].positions),
            weight: if a[x].weight >= b[y].weight { a[x].weight } else { b[y].weight },
        }] + union_postings(a.skip(x + 1), b.skip(y + 1)),
        x == a.len() ==> union_postings(a.skip(x), b.skip(y)) == b.skip(y),
        y == b.len() ==> union_postings(a.skip(x), b.skip(y)) == a.skip(x),
{
    if x < a.len() {
        assert(a.skip(x).drop_first() =~= a.skip(x + 1));
    }
    if y < b.len() {
        assert(b.skip(y).drop_first() =~= b.skip(y + 1));
    }
    if x == a.len() {
        assert(a.skip(x).len() == 0);
    }
    if y == b.len() {
        assert(b.skip(y).len() == 0);
    }
}

/// The largest weight among `items` (0 when there is none).
pub fn max_weight_in(items: &Vec<Posting>) -> (r: u16)
    ensures
        r == max_weight_of(views(items@)),
{
    let mut m: u16 = 0;
    let mut i: usize = 0;
    while i < items.len()
        invariant
            i <= items.len(),
            m == max_weight_of(views(items@).take(i as int)),
        decreases items.len() - i,
    {
        proof {
            assert(views(items@).take(i + 1).drop_last() =~= views(items@).take(i as int));
        }
        if items[i].weight > m {
            m = items[i].weight;
        }
        i += 1;
    }
    proof {
        assert(views(items@).take(items.len() as int) =~= views(items@));
    }
    m
}

/// Moves `v` into a posting list, bounding the weights by their maximum.
fn list_from_strict(v: Vec<Posting>) -> (r: PostingList)
    requires
        docs_strictly_increasing(views(v@)),
    ensures
        r.wf(),
        r@.items == views(v@),
        r@.max_weight == max_weight_of(views(v@)),
{
    let m = max_weight_in(&v);
    proof {
        lemma_max_weight_bound(views(v@));
    }
    PostingList::from_sorted_with_max_weight(v, m)
}

/// Every document of either list, in order; a document in both gets one
/// posting with the merged positions and the larger weight.
pub fn union(left: &PostingList, right: &PostingList) -> (r: PostingList)
    requires
        left.wf(),
        right.wf(),
    ensures
        r.wf(),
        r@.items == union_postings(left@.items, right@.items),
        r@.max_weight == max_weight_of(r@.items),
{
    let a = left.items();
    let b = right.items();
    let ghost sa = views(a@);
    let ghost sb = views(b@);
    let mut result: Vec<Posting> = Vec::new();
    let mut i: usize = 0;
    let mut j: usize = 0;
    proof {
        assert(sa.skip(0) =~= sa);
        assert(sb.skip(0) =~= sb);
    }
    while i < a.len() && j < b.len()
        invariant
            i <= a.len(),
            j <= b.len(),
            sa == views(a@),
            sb == views(b@),
            views(result@) + union_postings(sa.skip(i as int), sb.skip(j as int)) == union_postings(sa, sb),
        decreases a.len() + b.len() - i - j,
    {
        proof {
            lemma_union_step(sa, sb, i as int, j as int);
        }
        let ghost before = views(result@);
        if a[i].doc_id < b[j].doc_id {
            result.push(a[i].duplicate());
            i += 1;
        } else if a[i].doc_id > b[j].doc_id {
            result.push(b[j].duplicate());
            j += 1;
        } else {
            let positions = merge_position_lists(&a[i].positions, &b[j].positions);
            let w = if a[i].weight >= b[j].weight { a[i].weight } else { b[j].weight };
            result.push(Posting::with_weight(a[i].doc_id, positions, w));
            i += 1;
            j += 1;
        }
        proof {
            assert(views(result@) =~= before + seq![views(result@).last()]);
        }
    }
    proof {
        lemma_union_step(sa, sb, i as int, j as int);
    }
    while i < a.len()
        invariant
            i <= a.len(),
            j <= b.len(),
            sa == views(a@),
            sb == views(b@),
            i < a.len() ==> j == b.len(),
            j == b.len() ==> views(result@) + sa.skip(i as int) == union_postings(sa, sb),
            i == a.len() ==> views(result@) + sb.skip(j as int) == union_postings(sa, sb),
        decreases a.len() - i,
    {
        proof {
            assert(sa.skip(i as int) =~= seq![sa[i as int]] + sa.skip(i + 1));
        }
        let ghost before = views(result@);
        result.push(a[i].duplicate());
        proof {
            assert(views(result@) =~= before + seq![sa[i as int]]);
        }
        i += 1;
    }
    while j < b.len()
        invariant
            j <= b.len(),
            i == a.len(),
            sb == views(b@),
            views(result@) + sb.skip(j as int) == union_postings(sa, sb),
        decreases b.len() - j,
    {
        proof {
            assert(sb.skip(j as int) =~= seq![sb[j as int]] + sb.skip(j + 1));
        }
        let ghost before = views(result@);
        result.push(b[j].duplicate());
        proof {
            assert(views(result@) =~= before + seq![sb[j as int]]);
        }
        j += 1;
    }
    proof {
        assert(views(result@) + sb.skip(j as int) =~= views(result@));
        lemma_union_postings(sa, sb);
    }
    list_from_strict(result)
}


/// The postings of `a` (a sorted list) whose document occurs in the sorted
/// list `b`, in order; a strictly increasing result.
proof fn lemma_also_in_sorted(a: Seq<PostingV>, b: Seq<PostingV>)
    requires
        docs_strictly_increasing(a),
    ensures
        docs_strictly_increasing(postings_also_in(a, b)),
{
    let pred = |p: PostingV| has_doc(b, p.doc_id);
    assert forall|x: int, y: int| 0 <= x < y < postings_also_in(a, b).len() implies postings_also_in(a, b)[x].doc_id < postings_also_in(a, b)[y].doc_id by {
        lemma_filter_keeps_order(a, pred, x, y);
    }
}

/// The postings of `left` whose document `right` also holds, found by
/// walking both lists side by side.
pub fn linear_search(left: &PostingList, right: &PostingList) -> (r: PostingList)
    requires
        left.wf(),
        right.wf(),
    ensures
        r.wf(),
        r@.items == postings_also_in(left@.items, right@.items),
        r@.max_weight == max_weight_of(r@.items),
{
    let a = left.items();
    let b = right.items();
    let ghost sa = views(a@);
    let ghost sb = views(b@);
    let ghost pred = |p: PostingV| has_doc(sb, p.doc_id);
    let mut result: Vec<Posting> = Vec::new();
    let mut i: usize = 0;
    let mut j: usize = 0;
    while i < a.len() && j < b.len()
        invariant
            i <= a.len(),
            j <= b.len(),
            sa == views(a@),
            sb == views(b@),
            sa == left@.items,
            sb == right@.items,
            docs_strictly_increasing(sa),
            docs_strictly_increasing(sb),
            pred == (|p: PostingV| has_doc(sb, p.doc_id)),
            views(result@) == sa.take(i as int).filter(pred),
            i < a.len() ==> forall|k: int| 0 <= k < j ==> sb[k].doc_id < sa[i as int].doc_id,
        decreases a.len() + b.len() - i - j,
    {
        if a[i].doc_id < b[j].doc_id {
            proof {
                reveal_with_fuel(Seq::<_>::filter, 1);
                assert(sa.take(i + 1).drop_last() =~= sa.take(i as int));
                assert(!has_doc(sb, sa[i as int].doc_id)) by {
                    if has_doc(sb, sa[i as int].doc_id) {
                        let k = choose|k: int| 0 <= k < sb.len() && sb[k].doc_id == sa[i as int].doc_id;
                        if k > j {
                            assert(sb[j as int].doc_id < sb[k].doc_id);
                        }
                    }
                }
                if i + 1 < a.len() {
                    assert forall|k: int| 0 <= k < j implies sb[k].doc_id < sa[i + 1].doc_id by {
                        assert(sa[i as int].doc_id < sa[i + 1].doc_id);
                    }
                }
            }
            i += 1;
        } else if a[i].doc_id > b[j].doc_id {
            j += 1;
        } else {
            let ghost before = views(result@);
            result.push(a[i].duplicate());
            proof {
                reveal_with_fuel(Seq::<_>::filter, 1);
                assert(sa.take(i + 1).drop_last() =~= sa.take(i as int));
                assert(pred(sa[i as int]));
                assert(views(result@) =~= before.push(sa[i as int]));
                if i + 1 < a.len() {
                    assert forall|k: int| 0 <= k < j + 1 implies sb[k].doc_id < sa[i + 1].doc_id by {
                        assert(sa[i as int].doc_id < sa[i + 1].doc_id);
                        if k < j {
                        }
                    }
                }
            }
            i += 1;
            j += 1;
        }
    }
    proof {
        // What is left of `left` has no partner in `right`.
        assert forall|k: int| i <= k <= a.len() implies sa.take(k).filter(pred) == views(result@) by {
            lemma_filter_rest_absent(sa, sb, pred, i as int, j as int, k);
        }
        assert(sa.take(a.len() as int) =~= sa);
        lemma_also_in_sorted(sa, sb);
    }
    list_from_strict(result)
}

proof fn lemma_filter_rest_absent(
    sa: Seq<PostingV>,
    sb: Seq<PostingV>,
    pred: spec_fn(PostingV) -> bool,
    i: int,
    j: int,
    k: int,
)
    requires
        0 <= i <= k <= sa.len(),
        0 <= j <= sb.len(),
        i == sa.len() || j == sb.len(),
        docs_strictly_increasing(sa),
        docs_strictly_increasing(sb),
        pred == (|p: PostingV| has_doc(sb, p.doc_id)),
        i < sa.len() ==> forall|x: int| 0 <= x < j ==> sb[x].doc_id < sa[i].doc_id,
    ensures
        sa.take(k).filter(pred) == sa.take(i).filter(pred),
    decreases k - i,
{
    if k > i {
        lemma_filter_rest_absent(sa, sb, pred, i, j, k - 1);
        reveal_with_fuel(Seq::<_>::filter, 1);
        assert(sa.take(k).drop_last() =~= sa.take(k - 1));
        assert(!pred(sa[k - 1])) by {
            if has_doc(sb, sa[k - 1].doc_id) {
                let x = choose|x: int| 0 <= x < sb.len() && sb[x].doc_id == sa[k - 1].doc_id;
                if k - 1 > i {
                    assert(sa[i].doc_id < sa[k - 1].doc_id);
                }
            }
        }
    }
}

/// The first index from `start` on whose document is at least `target`,
/// found by galloping; `start` itself when it is already there or past the
/// end.
fn exponent_search_to(slice: &[Posting], start: usize, target: DocId) -> (r: usize)
    requires
        docs_strictly_increasing(views(slice@)),
    ensures
        start >= slice@.len() ==> r == start,
        start < slice@.len() ==> {
            &&& start <= r <= slice@.len()
            &&& forall|j: int| start <= j < r ==> slice@[j].doc_id < target
            &&& r < slice@.len() ==> slice@[r as int].doc_id >= target
        },
{
    let ghost s = views(slice@);
    let len = slice.len();
    if start >= len || slice[start].doc_id >= target {
        return start;
    }
    let mut bound: usize = 1;
    while bound < len - start && slice[start + bound].doc_id < target
        invariant
            start < len,
            len == slice@.len(),
            s == views(slice@),
            docs_strictly_increasing(s),
            1 <= bound,
            bound <= 2 * (len - start),
            bound / 2 < len - start,
            s[start + bound / 2].doc_id < target,
        decreases 2 * (len - start) - bound,
    {
        let ghost b0 = bound;
        bound = if bound > usize::MAX / 2 { usize::MAX } else { bound * 2 };
        proof {
            if b0 > usize::MAX / 2 {
                if bound / 2 < b0 {
                    assert(s[start + bound / 2].doc_id < s[start + b0].doc_id);
                }
            }
        }
    }
    let hi: usize = if bound < len - start { start + bound + 1 } else { len };
    let mut left: usize = start + 1;
    let mut right: usize = hi;
    proof {
        if bound < len - start {
            assert forall|j: int| hi <= j < len implies s[j].doc_id >= target by {
                assert(s[start + bound].doc_id < s[j].doc_id);
            }
        }
    }
    while left < right
        invariant
            start < left <= right <= len,
            len == slice@.len(),
            s == views(slice@),
            docs_strictly_increasing(s),
            forall|j: int| start <= j < left ==> s[j].doc_id < target,
            forall|j: int| right <= j < len ==> s[j].doc_id >= target,
        decreases right - left,
    {
        let mid = left + (right - left) / 2;
        if slice[mid].doc_id < target {
            proof {
                assert forall|j: int| start <= j <= mid implies s[j].doc_id < target by {
                    if j < mid {
                        assert(s[j].doc_id < s[mid as int].doc_id);
                    }
                }
            }
            left = mid + 1;
        } else {
            proof {
                assert forall|j: int| mid <= j < len implies s[j].doc_id >= target by {
                    if j > mid {
                        assert(s[mid as int].doc_id < s[j].doc_id);
                    }
                }
            }
            right = mid;
        }
    }
    proof {
        assert forall|j: int| start <= j < left implies slice@[j].doc_id < target by {
            assert(s[j].doc_id == slice@[j].doc_id);
        }
        if left < len {
            assert(s[left as int].doc_id == slice@[left as int].doc_id);
        }
    }
    left
}


/// The postings of the shorter list whose document the longer list also
/// holds, found by galloping through the longer list (the left list counts
/// as the shorter one when both are equally long).
pub fn exponential_search(left: &PostingList, right: &PostingList) -> (r: PostingList)
    requires
        left.wf(),
        right.wf(),
    ensures
        r.wf(),
        r@.items == gallop_intersection(left@.items, right@.items),
        r@.max_weight == max_weight_of(r@.items),
{
    let a = left.items();
    let b = right.items();
    let (short, long) = if a.len() <= b.len() { (a, b) } else { (b, a) };
    let ghost ss = views(short@);
    let ghost sl = views(long@);
    let ghost pred = |p: PostingV| has_doc(sl, p.doc_id);
    let mut result: Vec<Posting> = Vec::new();
    let mut cursor: usize = 0;
    let mut i: usize = 0;
    while i < short.len() && cursor < long.len()
        invariant
            i <= short.len(),
            cursor <= long.len(),
            ss == views(short@),
            sl == views(long@),
            docs_strictly_increasing(ss),
            docs_strictly_increasing(sl),
            pred == (|p: PostingV| has_doc(sl, p.doc_id)),
            views(result@) == ss.take(i as int).filter(pred),
            i < short.len() ==> forall|k: int| 0 <= k < cursor ==> sl[k].doc_id < ss[i as int].doc_id,
        decreases short.len() - i,
    {
        let d = short[i].doc_id;
        let c = exponent_search_to(long, cursor, d);
        proof {
            reveal_with_fuel(Seq::<_>::filter, 1);
            assert(ss.take(i + 1).drop_last() =~= ss.take(i as int));
            assert(ss[i as int].doc_id == d);
            assert forall|k: int| 0 <= k < c implies sl[k].doc_id < d by {
                assert(sl[k].doc_id == long@[k].doc_id);
            }
            if c < long.len() {
                assert(sl[c as int].doc_id >= d);
            }
        }
        if c < long.len() && long[c].doc_id == d {
            let ghost before = views(result@);
            result.push(short[i].duplicate());
            proof {
                assert(pred(ss[i as int]));
                assert(views(result@) =~= before.push(ss[i as int]));
                if i + 1 < short.len() {
                    assert forall|k: int| 0 <= k < c + 1 implies sl[k].doc_id < ss[i + 1].doc_id by {
                        assert(ss[i as int].doc_id < ss[i + 1].doc_id);
                    }
                }
            }
            cursor = c + 1;
        } else {
            proof {
                assert(!pred(ss[i as int])) by {
                    if has_doc(sl, d) {
                        let x = choose|x: int| 0 <= x < sl.len() && sl[x].doc_id == d;
                        if x > c {
                            assert(sl[c as int].doc_id < sl[x].doc_id);
                        }
                    }
                }
                if i + 1 < short.len() {
                    assert forall|k: int| 0 <= k < c implies sl[k].doc_id < ss[i + 1].doc_id by {
                        assert(ss[i as int].doc_id < ss[i + 1].doc_id);
                    }
                }
            }
            cursor = c;
        }
        i += 1;
    }
    proof {
        lemma_filter_rest_absent(ss, sl, pred, i as int, cursor as int, short.len() as int);
        assert(ss.take(short.len() as int) =~= ss);
        lemma_also_in_sorted(ss, sl);
    }
    list_from_strict(result)
}

/// The largest `k` with `2^k <= n`, for `n >= 1`.
pub fn floor_log2(n: usize) -> (r: usize)
    requires
        n >= 1,
    ensures
        r == log2_floor(n as nat),
        r < n,
{
    let mut x: usize = n;
    let mut r: usize = 0;
    while x >= 2
        invariant
            1 <= x,
            r + x <= n,
            r + log2_floor(x as nat) == log2_floor(n as nat),
        decreases x,
    {
        x = x / 2;
        r = r + 1;
    }
    r
}

/// The documents both lists hold. Galloping through the longer list is
/// chosen when its estimated cost, `short * (log2(long / short) + 1)`, is
/// below that of walking both (`left + right`); the postings then come from
/// the shorter list, otherwise from `left`.
pub fn intersection(left: &PostingList, right: &PostingList) -> (r: PostingList)
    requires
        left.wf(),
        right.wf(),
        left@.items.len() + right@.items.len() <= usize::MAX,
    ensures
        r.wf(),
        r@.max_weight == max_weight_of(r@.items),
        gallop_cost(left@.items.len(), right@.items.len()) < left@.items.len() + right@.items.len()
            ==> r@.items == gallop_intersection(left@.items, right@.items),
        gallop_cost(left@.items.len(), right@.items.len()) >= left@.items.len() + right@.items.len()
            ==> r@.items == postings_also_in(left@.items, right@.items),
{
    let a_len = left.len();
    let b_len = right.len();
    let short_len = if a_len <= b_len { a_len } else { b_len };
    let long_len = if a_len <= b_len { b_len } else { a_len };
    let ratio = long_len / if short_len >= 1 { short_len } else { 1 };
    let steps = floor_log2(if ratio >= 1 { ratio } else { 1 }) + 1;
    let gallop = match short_len.checked_mul(steps) {
        Some(v) => v,
        None => usize::MAX,
    };
    let merge = a_len + b_len;
    if gallop < merge {
        exponential_search(left, right)
    } else {
        linear_search(left, right)
    }
}

/// The postings of every list of `lists`, one after the other.
pub open spec fn all_items(lists: Seq<PostingList>) -> Seq<PostingV>
    decreases lists.len(),
{
    if lists.len() == 0 {
        Seq::empty()
    } else {
        all_items(lists.drop_last()) + lists.last()@.items
    }
}

/// Every posting of every list, merged by document as `from_items` does.
pub fn union_many(lists: &[PostingList]) -> (r: PostingList)
    requires
        forall|i: int| 0 <= i < lists@.len() ==> lists@[i].wf(),
    ensures
        r.wf(),
        merged_from(all_items(lists@), r@.items),
        r@.max_weight == max_weight_of(all_items(lists@)),
{
    let mut items: Vec<Posting> = Vec::new();
    let mut i: usize = 0;
    proof {
        assert(lists@.take(0) =~= Seq::<PostingList>::empty());
        assert(views(items@) =~= Seq::<PostingV>::empty());
    }
    while i < lists.len()
        invariant
            i <= lists.len(),
            views(items@) == all_items(lists@.take(i as int)),
        decreases lists.len() - i,
    {
        let list_items = lists[i].items();
        let ghost base = views(items@);
        let mut k: usize = 0;
        while k < list_items.len()
            invariant
                k <= list_items.len(),
                views(list_items@) == lists@[i as int]@.items,
                views(items@) == base + views(list_items@).take(k as int),
            decreases list_items.len() - k,
        {
            let ghost before = items@;
            let p = list_items[k].duplicate();
            items.push(p);
            proof {
                assert(items@ == before.push(p));
                assert(views(items@) =~= views(before).push(p@));
                assert(views(list_items@).take(k + 1) =~= views(list_items@).take(k as int).push(views(list_items@)[k as int]));
                assert(views(items@) =~= base + views(list_items@).take(k + 1));
            }
            k += 1;
        }
        proof {
            assert(views(list_items@).take(k as int) =~= views(list_items@));
            assert(lists@.take(i + 1).drop_last() =~= lists@.take(i as int));
        }
        i += 1;
    }
    proof {
        assert(lists@.take(lists.len() as int) =~= lists@);
    }
    PostingList::from_items(items)
}

} // verus!
