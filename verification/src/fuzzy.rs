//! Fuzzy matching of terms: how many edits a term tolerates and the terms one edit away.

use vstd::prelude::*;
use vstd::string::StrSliceExecFns;

use crate::text::{chars_of, string_of};

verus! {

broadcast use vstd::string::group_string_axioms;

/// How many leading characters a fuzzy match keeps exact unless told otherwise.
pub const DEFAULT_PREFIX_LENGTH: usize = 1;

/// How many expansions a fuzzy match considers unless told otherwise.
pub const DEFAULT_MAX_EXPANSIONS: usize = 50;

/// How a term is matched fuzzily.
#[derive(Debug, Clone, Copy, PartialEq, Eq, Structural)]
pub struct FuzzyOptions {
    pub max_edits: u8,
    pub prefix_length: usize,
    pub max_expansions: usize,
}

/// The fuzzy settings of a query term whose edit distance follows from its length.
#[derive(Debug, Clone, Copy, PartialEq, Eq, Structural)]
pub struct FuzzySpec {
    pub prefix_length: usize,
    pub max_expansions: usize,
}

/// A term that a fuzzy term expanded to, how far it is and in how many documents it occurs.
#[derive(Debug, Clone)]
pub struct FuzzyExpansion {
    pub term: String,
    pub edits: u8,
    pub doc_freq: u32,
}

impl FuzzyExpansion {
    /// The expansion to `term` at `edits` edits, found in `doc_freq` documents.
    pub fn new(term: &str, edits: u8, doc_freq: u32) -> (r: Self)
        ensures
            r.term@ == term@,
            r.edits == edits,
            r.doc_freq == doc_freq,
    {
        FuzzyExpansion { term: term.to_string(), edits, doc_freq }
    }
}

/// How many edits a term of `n` characters tolerates: none up to 3, one up to 6, else two.
pub open spec fn max_edits_for(n: nat) -> u8 {
    if n <= 3 {
        0
    } else if n <= 6 {
        1
    } else {
        2
    }
}

/// How many edits `term` tolerates by its number of characters.
pub fn default_max_edits(term: &str) -> (r: u8)
    ensures
        r == max_edits_for(term@.len()),
{
    let n = term.unicode_len();
    if n <= 3 {
        0
    } else if n <= 6 {
        1
    } else {
        2
    }
}

/// `term` cut after its first `prefix_chars` characters, or not at all where it has fewer.
pub fn split_prefix(term: &str, prefix_chars: usize) -> (r: (&str, &str))
    ensures
        prefix_chars <= term@.len() ==> r.0@ == term@.subrange(0, prefix_chars as int) && r.1@ == term@.subrange(
            prefix_chars as int,
            term@.len() as int,
        ),
        prefix_chars > term@.len() ==> r.0@ == term@ && r.1@.len() == 0,
{
    let n = term.unicode_len();
    let k = if prefix_chars <= n {
        prefix_chars
    } else {
        n
    };
    let head = term.substring_char(0, k);
    let tail = term.substring_char(k, n);
    proof {
        if prefix_chars > term@.len() {
            assert(term@.subrange(0, n as int) =~= term@);
        }
    }
    (head, tail)
}

/// The `j`-th lowercase ASCII letter.
pub open spec fn letter(j: int) -> char {
    (j + 97) as char
}

/// `c` without the character at place `i`.
pub open spec fn deleted_at(c: Seq<char>, i: int) -> Seq<char> {
    c.subrange(0, i) + c.subrange(i + 1, c.len() as int)
}

/// `c` with `x` inserted at place `i`.
pub open spec fn inserted_at(c: Seq<char>, i: int, x: char) -> Seq<char> {
    c.subrange(0, i).push(x) + c.subrange(i, c.len() as int)
}

/// `c` with the characters at places `i` and `i + 1` swapped.
pub open spec fn swapped_at(c: Seq<char>, i: int) -> Seq<char> {
    c.update(i, c[i + 1]).update(i + 1, c[i])
}

/// The insertions and substitutions at place `i` with the first `k` letters, letter by letter:
/// the insertion, then the substitution where `i` is inside `c`.
pub open spec fn edits_at(c: Seq<char>, i: int, k: int) -> Seq<Seq<char>>
    decreases k,
{
    if k <= 0 {
        Seq::empty()
    } else {
        let before = edits_at(c, i, k - 1);
        let ins = before.push(inserted_at(c, i, letter(k - 1)));
        if i < c.len() {
            ins.push(c.update(i, letter(k - 1)))
        } else {
            ins
        }
    }
}

/// The insertions and substitutions at the first `m` places, place by place.
pub open spec fn edits_before(c: Seq<char>, m: int) -> Seq<Seq<char>>
    decreases m,
{
    if m <= 0 {
        Seq::empty()
    } else {
        edits_before(c, m - 1) + edits_at(c, m - 1, 26)
    }
}

/// Every text one edit from `c`, in the order they are produced: the deletions at each place,
/// the insertions and substitutions at each place with each letter, then the swaps of
/// neighbours.
pub open spec fn one_edit_candidates(c: Seq<char>) -> Seq<Seq<char>> {
    Seq::new(c.len(), |i: int| deleted_at(c, i)) + edits_before(c, c.len() + 1int) + Seq::new(
        if c.len() > 0 {
            (c.len() - 1) as nat
        } else {
            0
        },
        |i: int| swapped_at(c, i),
    )
}

/// Every string one edit (a deletion, an insertion or substitution of a lowercase ASCII letter,
/// or a swap of neighbours) from `term`.
pub fn candidates_within_one(term: &str) -> (r: Vec<String>)
    requires
        term@.len() < usize::MAX,
    ensures
        r@.map_values(|s: String| s@) == one_edit_candidates(term@),
{
    let chars = chars_of(term);
    let ghost c = term@;
    let n = chars.len();
    let mut out: Vec<String> = Vec::new();
    let mut i: usize = 0;
    while i < n
        invariant
            chars@ == c,
            n == c.len(),
            i <= n,
            out@.map_values(|s: String| s@) == Seq::new(i as nat, |j: int| deleted_at(c, j)),
        decreases n - i,
    {
        let mut d = chars.clone();
        d.remove(i);
        let ghost before = out@;
        out.push(string_of(d.as_slice()));
        proof {
            assert(d@ =~= deleted_at(c, i as int));
            assert(out@.map_values(|s: String| s@) =~= before.map_values(|s: String| s@).push(deleted_at(c, i as int)));
            assert(out@.map_values(|s: String| s@) =~= Seq::new((i + 1) as nat, |j: int| deleted_at(c, j)));
        }
        i += 1;
    }
    let ghost dels = out@.map_values(|s: String| s@);
    let mut p: usize = 0;
    while p <= n
        invariant
            chars@ == c,
            n == c.len(),
            n < usize::MAX,
            p <= n + 1,
            dels == Seq::new(n as nat, |j: int| deleted_at(c, j)),
            out@.map_values(|s: String| s@) == dels + edits_before(c, p as int),
        decreases n + 1 - p,
    {
        let mut k: u32 = 0;
        let ghost at_start = out@.map_values(|s: String| s@);
        while k < 26
            invariant
                chars@ == c,
                n == c.len(),
                p <= n,
                k <= 26,
                at_start == dels + edits_before(c, p as int),
                out@.map_values(|s: String| s@) == at_start + edits_at(c, p as int, k as int),
            decreases 26 - k,
        {
            let ch = ((k as u8) + 97) as char;
            assert(ch == letter(k as int));
            let ghost before = out@.map_values(|s: String| s@);
            let mut ins = chars.clone();
            ins.insert(p, ch);
            out.push(string_of(ins.as_slice()));
            proof {
                assert(ins@ =~= inserted_at(c, p as int, ch));
                assert(out@.map_values(|s: String| s@) =~= before.push(inserted_at(c, p as int, ch)));
            }
            if p < n {
                let ghost before2 = out@.map_values(|s: String| s@);
                let mut sub = chars.clone();
                sub.set(p, ch);
                out.push(string_of(sub.as_slice()));
                proof {
                    assert(sub@ =~= c.update(p as int, ch));
                    assert(out@.map_values(|s: String| s@) =~= before2.push(c.update(p as int, ch)));
                }
            }
            proof {
                assert(out@.map_values(|s: String| s@) =~= at_start + edits_at(c, p as int, k + 1));
            }
            k += 1;
        }
        proof {
            assert(edits_before(c, p + 1) == edits_before(c, p as int) + edits_at(c, p as int, 26));
            assert(out@.map_values(|s: String| s@) =~= dels + edits_before(c, p + 1));
        }
        p += 1;
    }
    let ghost mid = out@.map_values(|s: String| s@);
    let swaps: usize = if n > 0 {
        n - 1
    } else {
        0
    };
    let mut t: usize = 0;
    while t < swaps
        invariant
            chars@ == c,
            n == c.len(),
            swaps == (if n > 0 {
                (n - 1) as usize
            } else {
                0usize
            }),
            t <= swaps,
            out@.map_values(|s: String| s@) == mid + Seq::new(t as nat, |j: int| swapped_at(c, j)),
        decreases swaps - t,
    {
        let mut w = chars.clone();
        let a = w[t];
        let b = w[t + 1];
        w.set(t, b);
        w.set(t + 1, a);
        let ghost before = out@.map_values(|s: String| s@);
        out.push(string_of(w.as_slice()));
        proof {
            assert(w@ =~= swapped_at(c, t as int));
            assert(out@.map_values(|s: String| s@) =~= before.push(swapped_at(c, t as int)));
            assert(out@.map_values(|s: String| s@) =~= mid + Seq::new((t + 1) as nat, |j: int| swapped_at(c, j)));
        }
        t += 1;
    }
    proof {
        assert(out@.map_values(|s: String| s@) =~= one_edit_candidates(c));
    }
    out
}

/// The insertions and substitutions at one place with the first `k` letters: two per letter
/// inside the text, one at its end; the insertion with letter `j` comes first, then the
/// substitution.
pub proof fn lemma_edits_at(c: Seq<char>, i: int, k: int)
    requires
        0 <= i <= c.len(),
        0 <= k,
    ensures
        edits_at(c, i, k).len() == if i < c.len() { 2 * k } else { k },
        i < c.len() ==> forall|j: int| 0 <= j < k ==> edits_at(c, i, k)[2 * j] == #[trigger] inserted_at(c, i, letter(j)),
        i == c.len() ==> forall|j: int| 0 <= j < k ==> edits_at(c, i, k)[j] == #[trigger] inserted_at(c, i, letter(j)),
        i < c.len() ==> forall|j: int| 0 <= j < k ==> edits_at(c, i, k)[2 * j + 1] == #[trigger] c.update(i, letter(j)),
    decreases k,
{
    if k > 0 {
        lemma_edits_at(c, i, k - 1);
        let before = edits_at(c, i, k - 1);
        if i < c.len() {
            assert forall|j: int| 0 <= j < k implies edits_at(c, i, k)[2 * j] == #[trigger] inserted_at(c, i, letter(j)) by {
                if j < k - 1 {
                    assert(edits_at(c, i, k)[2 * j] == before[2 * j]);
                }
            }
            assert forall|j: int| 0 <= j < k implies edits_at(c, i, k)[2 * j + 1] == #[trigger] c.update(i, letter(j)) by {
                if j < k - 1 {
                    assert(edits_at(c, i, k)[2 * j + 1] == before[2 * j + 1]);
                }
            }
        } else {
            assert forall|j: int| 0 <= j < k implies edits_at(c, i, k)[j] == #[trigger] inserted_at(c, i, letter(j)) by {
                if j < k - 1 {
                    assert(edits_at(c, i, k)[j] == before[j]);
                }
            }
        }
    }
}

/// Where the edits at place `i` start among those of the first places: 52 per earlier place.
pub open spec fn edits_start(i: int) -> int {
    52 * i
}

/// The edits of the first `m` places hold those of each place `i < m`, starting at
/// `edits_start(i)`; there are 52 per place inside the text and 26 at its end.
pub proof fn lemma_edits_before(c: Seq<char>, m: int)
    requires
        0 <= m <= c.len() + 1,
    ensures
        edits_before(c, m).len() == if m == c.len() + 1 { 52 * (c.len() as int) + 26 } else { 52 * m },
        forall|i: int, x: int|
            0 <= i < m && 0 <= x < edits_at(c, i, 26).len() ==> #[trigger] edits_before(c, m)[edits_start(i) + x]
                == #[trigger] edits_at(c, i, 26)[x],
    decreases m,
{
    if m > 0 {
        lemma_edits_before(c, m - 1);
        lemma_edits_at(c, m - 1, 26);
        let a = edits_before(c, m - 1);
        let b = edits_at(c, m - 1, 26);
        assert(edits_before(c, m) == a + b);
        assert(a.len() == edits_start(m - 1));
        assert forall|i: int, x: int|
            0 <= i < m && 0 <= x < edits_at(c, i, 26).len() implies #[trigger] edits_before(c, m)[edits_start(i) + x]
                == #[trigger] edits_at(c, i, 26)[x] by {
            if i < m - 1 {
                lemma_edits_at(c, i, 26);
                assert(edits_start(i) + x < a.len());
                assert((a + b)[edits_start(i) + x] == a[edits_start(i) + x]);
            } else {
                assert((a + b)[edits_start(i) + x] == b[x]);
            }
        }
    }
}

/// The candidates one edit from `c` are all there, each kind of edit at each place: every
/// deletion, every insertion and substitution of each of the 26 letters, and every swap of
/// neighbours; so there are `|c| + 26(|c| + 1) + 26|c| + max(|c| - 1, 0)` of them.
pub proof fn lemma_one_edit_candidates(c: Seq<char>)
    ensures
        one_edit_candidates(c).len() == c.len() + 26 * (c.len() + 1) + 26 * c.len() + if c.len() > 0 {
            c.len() - 1
        } else {
            0
        },
        forall|i: int| 0 <= i < c.len() ==> one_edit_candidates(c).contains(#[trigger] deleted_at(c, i)),
        forall|i: int| 0 <= i < c.len() - 1 ==> one_edit_candidates(c).contains(#[trigger] swapped_at(c, i)),
        forall|i: int, j: int|
            0 <= i <= c.len() && 0 <= j < 26 ==> one_edit_candidates(c).contains(#[trigger] inserted_at(c, i, letter(j))),
        forall|i: int, j: int|
            0 <= i < c.len() && 0 <= j < 26 ==> one_edit_candidates(c).contains(#[trigger] c.update(i, letter(j))),
{
    let n = c.len() as int;
    let dels = Seq::new(c.len(), |i: int| deleted_at(c, i));
    let eds = edits_before(c, n + 1);
    let sws = Seq::new(if c.len() > 0 { (c.len() - 1) as nat } else { 0 }, |i: int| swapped_at(c, i));
    let all = one_edit_candidates(c);
    lemma_edits_before(c, n + 1);
    assert(all == dels + eds + sws);
    assert forall|i: int| 0 <= i < c.len() implies all.contains(#[trigger] deleted_at(c, i)) by {
        assert(all[i] == dels[i]);
    }
    assert forall|i: int| 0 <= i < c.len() - 1 implies all.contains(#[trigger] swapped_at(c, i)) by {
        assert(all[n + eds.len() + i] == sws[i]);
    }
    assert forall|i: int, j: int| 0 <= i <= c.len() && 0 <= j < 26 implies all.contains(#[trigger] inserted_at(c, i, letter(j))) by {
        lemma_edits_at(c, i, 26);
        let x = if i < c.len() { 2 * j } else { j };
        assert(inserted_at(c, i, letter(j)) == inserted_at(c, i, letter(j)));
        assert(edits_at(c, i, 26)[x] == inserted_at(c, i, letter(j)));
        assert(eds[edits_start(i) + x] == edits_at(c, i, 26)[x]);
        assert(all[n + edits_start(i) + x] == eds[edits_start(i) + x]);
    }
    assert forall|i: int, j: int| 0 <= i < c.len() && 0 <= j < 26 implies all.contains(#[trigger] c.update(i, letter(j))) by {
        lemma_edits_at(c, i, 26);
        assert(c.update(i, letter(j)) == c.update(i, letter(j)));
        let x = 2 * j + 1;
        assert(edits_at(c, i, 26)[x] == c.update(i, letter(j)));
        assert(eds[edits_start(i) + x] == edits_at(c, i, 26)[x]);
        assert(all[n + (edits_start(i) + x)] == eds[edits_start(i) + x]);
    }
}

} // verus!
