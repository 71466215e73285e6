//! Maximal runs of characters of one class, and where they stand in UTF-8.

use vstd::prelude::*;
use vstd::utf8::{encode_scalar, encode_utf8};

verus! {

/// Whether `c` is alphanumeric: alphabetic or numeric in the sense of Unicode, as
/// `char::is_alphanumeric` has it.
pub uninterp spec fn alphanumeric(c: char) -> bool;

/// `char::is_alphanumeric`.
#[verifier::external_body]
pub fn is_alphanumeric(c: char) -> (r: bool)
    ensures
        r == alphanumeric(c),
{
    c.is_alphanumeric()
}

/// The maximal runs of characters of `s` that satisfy `keep`, as ranges of places, in order.
pub open spec fn runs(s: Seq<char>, keep: spec_fn(char) -> bool) -> Seq<(int, int)>
    decreases s.len(),
{
    if s.len() == 0 {
        Seq::empty()
    } else {
        let before = runs(s.drop_last(), keep);
        let n = s.len() - 1;
        if !keep(s[n]) {
            before
        } else if n > 0 && keep(s[n - 1]) {
            before.update(before.len() - 1, (before.last().0, n + 1))
        } else {
            before.push((n, n + 1))
        }
    }
}

/// The runs of alphanumeric characters.
pub open spec fn alnum_runs(s: Seq<char>) -> Seq<(int, int)> {
    runs(s, |c: char| alphanumeric(c))
}

/// Where the character at place `i` of `s` starts in its UTF-8 encoding.
pub open spec fn byte_offset(s: Seq<char>, i: int) -> int {
    encode_utf8(s.subrange(0, i)).len() as int
}

/// The UTF-8 length of one character, as `char::len_utf8` gives it.
pub fn char_len_utf8(c: char) -> (r: usize)
    ensures
        r == encode_scalar(c as u32).len(),
        1 <= r <= 4,
{
    let v = c as u32;
    if v <= 0x7f {
        1
    } else if v <= 0x7ff {
        2
    } else if v <= 0xffff {
        3
    } else {
        4
    }
}

/// Appending a character lengthens the encoding by the character's length.
pub proof fn lemma_encode_push(s: Seq<char>, c: char)
    ensures
        encode_utf8(s.push(c)).len() == encode_utf8(s).len() + encode_scalar(c as u32).len(),
    decreases s.len(),
{
    if s.len() == 0 {
        assert(s.push(c).drop_first() =~= Seq::<char>::empty());
        assert(s.push(c)[0] == c);
        assert(encode_utf8(Seq::<char>::empty()).len() == 0);
        assert(encode_utf8(s.push(c)) == encode_scalar(c as u32) + encode_utf8(Seq::<char>::empty()));
    } else {
        assert(s.push(c).drop_first() =~= s.drop_first().push(c));
        assert(s.push(c)[0] == s[0]);
        lemma_encode_push(s.drop_first(), c);
    }
}

/// The encoding of `s` is as long as `s.len()` plus the extra bytes of each character; in
/// particular a prefix is no longer than the whole.
pub proof fn lemma_byte_offset_step(s: Seq<char>, i: int)
    requires
        0 <= i < s.len(),
    ensures
        byte_offset(s, i + 1) == byte_offset(s, i) + encode_scalar(s[i] as u32).len(),
{
    assert(s.subrange(0, i + 1) =~= s.subrange(0, i).push(s[i]));
    lemma_encode_push(s.subrange(0, i), s[i]);
}

/// Places further on start further on in the encoding.
pub proof fn lemma_byte_offset_mono(s: Seq<char>, i: int, j: int)
    requires
        0 <= i <= j <= s.len(),
    ensures
        byte_offset(s, i) <= byte_offset(s, j),
    decreases j - i,
{
    if i < j {
        lemma_byte_offset_mono(s, i, j - 1);
        lemma_byte_offset_step(s, j - 1);
    }
}

/// The whole encoding ends at the last place.
pub proof fn lemma_byte_offset_end(s: Seq<char>)
    ensures
        byte_offset(s, s.len() as int) == encode_utf8(s).len(),
{
    assert(s.subrange(0, s.len() as int) =~= s);
}

/// Runs are ordered, apart, inside `s`, and no more than its characters.
pub proof fn lemma_runs_len(s: Seq<char>, keep: spec_fn(char) -> bool)
    ensures
        runs(s, keep).len() <= s.len(),
        forall|k: int| 0 <= k < runs(s, keep).len() ==> k <= #[trigger] runs(s, keep)[k].0 < runs(s, keep)[k].1 <= s.len(),
        forall|k: int| 0 <= k < runs(s, keep).len() - 1 ==> #[trigger] runs(s, keep)[k].1 < runs(s, keep)[k + 1].0,
        s.len() > 0 ==> (keep(s.last()) <==> runs(s, keep).len() > 0 && runs(s, keep).last().1 == s.len()),
    decreases s.len(),
{
    if s.len() > 0 {
        let t = s.drop_last();
        lemma_runs_len(t, keep);
        let r0 = runs(t, keep);
        let r = runs(s, keep);
        let n = s.len() - 1;
        if t.len() > 0 {
            assert(t.last() == s[n - 1]);
        }
        if !keep(s[n]) {
            assert(r == r0);
        } else if n > 0 && keep(s[n - 1]) {
            assert(r0.len() > 0);
        } else {
            assert(r == r0.push((n, n + 1)));
            if r0.len() > 0 {
                assert(r0.last().1 < s.len() - 1 || r0.last().1 == n);
                if r0.last().1 == n {
                    assert(keep(t.last()));
                }
            }
        }
    }
}

/// The runs of alphanumeric characters are ordered, apart and inside `s`.
pub proof fn lemma_alnum_runs(s: Seq<char>)
    ensures
        alnum_runs(s).len() <= s.len(),
        forall|k: int| 0 <= k < alnum_runs(s).len() ==> k <= #[trigger] alnum_runs(s)[k].0 < alnum_runs(s)[k].1 <= s.len(),
        forall|k: int| 0 <= k < alnum_runs(s).len() - 1 ==> #[trigger] alnum_runs(s)[k].1 < alnum_runs(s)[k + 1].0,
{
    lemma_runs_len(s, |c: char| alphanumeric(c));
}

/// A prefix of a text has no more runs than the text.
pub proof fn lemma_runs_prefix_len(s: Seq<char>, keep: spec_fn(char) -> bool, i: int)
    requires
        0 <= i <= s.len(),
    ensures
        runs(s.subrange(0, i), keep).len() <= runs(s, keep).len(),
    decreases s.len(),
{
    if i == s.len() {
        assert(s.subrange(0, i) =~= s);
    } else {
        let h = s.drop_last();
        lemma_runs_prefix_len(h, keep, i);
        assert(h.subrange(0, i) =~= s.subrange(0, i));
    }
}

} // verus!
