//! Sorting and deduplicating identifiers.

use vstd::prelude::*;
use vstd::multiset::Multiset;
use vstd::slice::slice_subrange;

verus! {

/// Whether each value of `s` is larger than the one before.
pub open spec fn strictly_increasing(s: Seq<u64>) -> bool {
    forall|i: int, j: int| 0 <= i < j < s.len() ==> s[i] < s[j]
}

/// The strictly increasing list of the values found in `a` or `b`, both strictly increasing.
fn union_sorted(a: &Vec<u64>, b: &Vec<u64>) -> (r: Vec<u64>)
    requires
        strictly_increasing(a@),
        strictly_increasing(b@),
    ensures
        strictly_increasing(r@),
        r@.to_set() == a@.to_set().union(b@.to_set()),
{
    let mut r: Vec<u64> = Vec::new();
    let mut x: usize = 0;
    let mut y: usize = 0;
    while x < a.len() || y < b.len()
        invariant
            x <= a.len(),
            y <= b.len(),
            strictly_increasing(a@),
            strictly_increasing(b@),
            strictly_increasing(r@),
            r@.to_set() == a@.subrange(0, x as int).to_set().union(b@.subrange(0, y as int).to_set()),
            r@.len() > 0 && x < a.len() ==> r@.last() < a@[x as int],
            r@.len() > 0 && y < b.len() ==> r@.last() < b@[y as int],
        decreases a.len() + b.len() - x - y,
    {
        let ghost r0 = r@;
        let ghost x0 = x;
        let ghost y0 = y;
        let v: u64;
        if y >= b.len() || (x < a.len() && a[x] < b[y]) {
            v = a[x];
            x += 1;
        } else if x >= a.len() || b[y] < a[x] {
            v = b[y];
            y += 1;
        } else {
            v = a[x];
            x += 1;
            y += 1;
        }
        r.push(v);
        proof {
            assert forall|i: int, j: int| 0 <= i < j < r@.len() implies r@[i] < r@[j] by {
                if j == r@.len() - 1 && i < j {
                    assert(r0.len() > 0 ==> r0.last() < v);
                    if i < r0.len() - 1 {
                        assert(r0[i] < r0.last());
                    }
                }
            }
            let sa = a@.subrange(0, x as int);
            let sb = b@.subrange(0, y as int);
            let sa0 = a@.subrange(0, x0 as int);
            let sb0 = b@.subrange(0, y0 as int);
            if x > x0 {
                assert(sa =~= sa0.push(a@[x0 as int]));
                sa0.lemma_push_to_set_commute(a@[x0 as int]);
            } else {
                assert(sa =~= sa0);
            }
            if y > y0 {
                assert(sb =~= sb0.push(b@[y0 as int]));
                sb0.lemma_push_to_set_commute(b@[y0 as int]);
            } else {
                assert(sb =~= sb0);
            }
            r0.lemma_push_to_set_commute(v);
            assert(r@.to_set() =~= sa.to_set().union(sb.to_set()));
            if x < a.len() {
                if x > x0 {
                    assert(a@[x0 as int] < a@[x as int]);
                }
            }
            if y < b.len() {
                if y > y0 {
                    assert(b@[y0 as int] < b@[y as int]);
                }
            }
        }
    }
    assert(a@.subrange(0, a.len() as int) =~= a@);
    assert(b@.subrange(0, b.len() as int) =~= b@);
    r
}

/// The values of `v`, each once, in increasing order.
pub fn sorted_unique(v: &[u64]) -> (r: Vec<u64>)
    ensures
        strictly_increasing(r@),
        r@.to_set() == v@.to_set(),
    decreases v@.len(),
{
    let n = v.len();
    if n == 0 {
        let r: Vec<u64> = Vec::new();
        assert(r@.to_set() =~= v@.to_set());
        return r;
    }
    if n == 1 {
        let mut r: Vec<u64> = Vec::new();
        r.push(v[0]);
        assert(r@ =~= v@);
        return r;
    }
    let mid = n / 2;
    let left = slice_subrange(v, 0, mid);
    let right = slice_subrange(v, mid, n);
    let a = sorted_unique(left);
    let b = sorted_unique(right);
    let r = union_sorted(&a, &b);
    proof {
        assert(v@ =~= left@ + right@);
        vstd::seq_lib::seq_to_set_distributes_over_add(left@, right@);
    }
    r
}

} // verus!

verus! {

/// Whether `a` comes no later than `b`: by the first number, then by the second.
pub open spec fn pair_le(a: (u64, u64), b: (u64, u64)) -> bool {
    a.0 < b.0 || (a.0 == b.0 && a.1 <= b.1)
}

/// The pairs are in order.
pub open spec fn pairs_sorted(s: Seq<(u64, u64)>) -> bool {
    forall|i: int, j: int| 0 <= i < j < s.len() ==> pair_le(s[i], s[j])
}

/// An empty sequence holds nothing.
proof fn lemma_empty_multiset<A>(s: Seq<A>)
    requires
        s.len() == 0,
    ensures
        s.to_multiset() =~= Multiset::<A>::empty(),
{
    broadcast use vstd::seq_lib::to_multiset_contains, vstd::multiset::group_multiset_axioms;

    assert forall|a: A| s.to_multiset().count(a) == 0 by {
        assert(!s.contains(a));
    }
}

/// Merges two ordered lists of pairs into one, keeping every pair.
fn merge_pairs(a: &[(u64, u64)], b: &[(u64, u64)]) -> (r: Vec<(u64, u64)>)
    requires
        pairs_sorted(a@),
        pairs_sorted(b@),
    ensures
        pairs_sorted(r@),
        r@.to_multiset() == a@.to_multiset().add(b@.to_multiset()),
{
    broadcast use vstd::seq_lib::to_multiset_build, vstd::multiset::group_multiset_axioms;

    let mut out: Vec<(u64, u64)> = Vec::new();
    let mut i: usize = 0;
    let mut j: usize = 0;
    proof {
        lemma_empty_multiset(a@.take(0));
        lemma_empty_multiset(b@.take(0));
        lemma_empty_multiset(out@);
        assert(out@.to_multiset() =~= a@.take(0).to_multiset().add(b@.take(0).to_multiset()));
    }
    while i < a.len() || j < b.len()
        invariant
            i <= a@.len(),
            j <= b@.len(),
            pairs_sorted(a@),
            pairs_sorted(b@),
            pairs_sorted(out@),
            out@.to_multiset() == a@.take(i as int).to_multiset().add(b@.take(j as int).to_multiset()),
            out@.len() > 0 && i < a@.len() ==> pair_le(out@.last(), a@[i as int]),
            out@.len() > 0 && j < b@.len() ==> pair_le(out@.last(), b@[j as int]),
        decreases a@.len() + b@.len() - i - j,
    {
        let take_a = if j == b.len() {
            true
        } else if i == a.len() {
            false
        } else {
            a[i].0 < b[j].0 || (a[i].0 == b[j].0 && a[i].1 <= b[j].1)
        };
        let ghost before = out@;
        if take_a {
            let x = a[i];
            out.push(x);
            proof {
                assert(a@.take(i + 1) =~= a@.take(i as int).push(x));
                vstd::seq_lib::to_multiset_build(before, x);
                vstd::seq_lib::to_multiset_build(a@.take(i as int), x);
                assert(out@.to_multiset() =~= a@.take(i + 1).to_multiset().add(b@.take(j as int).to_multiset()));
                assert forall|p: int, q: int| 0 <= p < q < out@.len() implies pair_le(out@[p], out@[q]) by {
                    if q == out@.len() - 1 && p < q {
                        assert(pair_le(before[p], before.last()) || p == before.len() - 1);
                    }
                }
                if i + 1 < a@.len() {
                    assert(pair_le(a@[i as int], a@[i + 1]));
                }
            }
            i += 1;
        } else {
            let x = b[j];
            out.push(x);
            proof {
                assert(b@.take(j + 1) =~= b@.take(j as int).push(x));
                vstd::seq_lib::to_multiset_build(before, x);
                vstd::seq_lib::to_multiset_build(b@.take(j as int), x);
                assert(out@.to_multiset() =~= a@.take(i as int).to_multiset().add(b@.take(j + 1).to_multiset()));
                assert forall|p: int, q: int| 0 <= p < q < out@.len() implies pair_le(out@[p], out@[q]) by {
                    if q == out@.len() - 1 && p < q {
                        assert(pair_le(before[p], before.last()) || p == before.len() - 1);
                    }
                }
                if j + 1 < b@.len() {
                    assert(pair_le(b@[j as int], b@[j + 1]));
                }
            }
            j += 1;
        }
    }
    proof {
        assert(a@.take(a@.len() as int) =~= a@);
        assert(b@.take(b@.len() as int) =~= b@);
    }
    out
}

/// The pairs of `v` in order, by the first number and then the second; every pair is kept.
pub fn sort_pairs(v: &[(u64, u64)]) -> (r: Vec<(u64, u64)>)
    ensures
        pairs_sorted(r@),
        r@.to_multiset() == v@.to_multiset(),
    decreases v@.len(),
{
    let n = v.len();
    if n <= 1 {
        let mut out: Vec<(u64, u64)> = Vec::new();
        if n == 1 {
            out.push(v[0]);
        }
        proof {
            assert(out@ =~= v@);
        }
        return out;
    }
    let mid = n / 2;
    let left = vstd::slice::slice_subrange(v, 0, mid);
    let right = vstd::slice::slice_subrange(v, mid, n);
    let ls = sort_pairs(left);
    let rs = sort_pairs(right);
    let r = merge_pairs(ls.as_slice(), rs.as_slice());
    proof {
        assert(v@ =~= left@ + right@);
        vstd::seq_lib::lemma_multiset_commutative(left@, right@);
    }
    r
}

} // verus!
