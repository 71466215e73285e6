use vstd::prelude::*;

use crate::posting::spec::positions_strictly_increasing;
use crate::types::Position;

verus! {

/// Inserts `x` into a strictly increasing position list, keeping it strictly
/// increasing; a position already present is not inserted again.
pub fn insert_position_sorted(v: &mut Vec<Position>, x: Position)
    requires
        positions_strictly_increasing(old(v)@),
    ensures
        positions_strictly_increasing(final(v)@),
        final(v)@.to_set() == old(v)@.to_set().insert(x),
{
    let mut lo: usize = 0;
    let mut hi: usize = v.len();
    while lo < hi
        invariant
            0 <= lo <= hi <= v.len(),
            v@ == old(v)@,
            positions_strictly_increasing(v@),
            forall|i: int| 0 <= i < lo ==> v@[i] < x,
            forall|i: int| hi <= i < v@.len() ==> v@[i] >= x,
        decreases hi - lo,
    {
        let mid = lo + (hi - lo) / 2;
        if v[mid] < x {
            lo = mid + 1;
        } else {
            hi = mid;
        }
    }
    if lo < v.len() && v[lo] == x {
        assert(old(v)@.to_set().insert(x) =~= old(v)@.to_set());
        return ;
    }
    let ghost before = v@;
    v.insert(lo, x);
    assert(v@ == before.insert(lo as int, x));
    assert forall|i: int, j: int| 0 <= i < j < v@.len() implies v@[i] < v@[j] by {
        if j < lo {
        } else if j == lo {
        } else if i < lo {
        } else if i == lo {
            assert(v@[j] == before[j - 1]);
        } else {
            assert(v@[i] == before[i - 1]);
            assert(v@[j] == before[j - 1]);
        }
    }
    assert forall|y: Position| v@.to_set().contains(y) <==> before.to_set().insert(x).contains(y) by {
        if v@.to_set().contains(y) {
            let k = choose|k: int| 0 <= k < v@.len() && v@[k] == y;
            if k < lo {
                assert(before[k] == y);
            } else if k > lo {
                assert(before[k - 1] == y);
            }
        }
        if before.to_set().contains(y) {
            let k = choose|k: int| 0 <= k < before.len() && before[k] == y;
            if k < lo {
                assert(v@[k] == y);
            } else {
                assert(v@[k + 1] == y);
            }
        }
        if y == x {
            assert(v@[lo as int] == x);
        }
    }
    assert(v@.to_set() =~= before.to_set().insert(x));
}

/// The strictly increasing list of every position found in `a` or `b`.
pub fn sorted_union(a: &Vec<Position>, b: &Vec<Position>) -> (r: Vec<Position>)
    ensures
        positions_strictly_increasing(r@),
        r@.to_set() == a@.to_set().union(b@.to_set()),
{
    let mut r: Vec<Position> = Vec::new();
    let mut i: usize = 0;
    while i < a.len()
        invariant
            i <= a.len(),
            positions_strictly_increasing(r@),
            r@.to_set() == a@.subrange(0, i as int).to_set(),
        decreases a.len() - i,
    {
        insert_position_sorted(&mut r, a[i]);
        assert(a@.subrange(0, i + 1) =~= a@.subrange(0, i as int).push(a[i as int]));
        proof {
            a@.subrange(0, i as int).lemma_push_to_set_commute(a[i as int]);
        }
        i += 1;
    }
    assert(a@.subrange(0, a.len() as int) =~= a@);
    let mut j: usize = 0;
    while j < b.len()
        invariant
            j <= b.len(),
            positions_strictly_increasing(r@),
            r@.to_set() == a@.to_set().union(b@.subrange(0, j as int).to_set()),
        decreases b.len() - j,
    {
        insert_position_sorted(&mut r, b[j]);
        assert(b@.subrange(0, j + 1) =~= b@.subrange(0, j as int).push(b[j as int]));
        proof {
            b@.subrange(0, j as int).lemma_push_to_set_commute(b[j as int]);
        }
        assert(r@.to_set() =~= a@.to_set().union(b@.subrange(0, j + 1).to_set()));
        j += 1;
    }
    assert(b@.subrange(0, b.len() as int) =~= b@);
    r
}

} // verus!
