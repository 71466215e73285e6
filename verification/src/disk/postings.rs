//! Decoding of the posting lists of a segment, and that it gives back what was encoded.

use vstd::prelude::*;

use crate::disk::codec::{
    lemma_varint_roundtrip, read_var_u16, read_var_u32, read_var_u64, varint_bytes, varint_scan, varint_value,
};
use crate::disk::error::SegmentError;
use crate::disk::writer::{encodable, encode_posting, encode_positions, encode_postings};
use crate::posting::item::{Posting, PostingV};
use crate::posting::list::PostingList;
use crate::posting::spec::{docs_strictly_increasing, merged_from, positions_nondecreasing, views};
use crate::types::{DocId, Position};

verus! {

/// What decoding gives: values and the index after them, a format error, or a sum that does not
/// fit its integer type (where the decoder stops).
pub enum Decoded<T> {
    Done(T, int),
    Failed(SegmentError),
    Overflowed,
}

/// The varint at `off` of `b` and the index after it, or why there is none.
pub open spec fn varint_at(b: Seq<u8>, off: int) -> Result<(u64, int), SegmentError> {
    let (st, end) = varint_scan(b, off, 0);
    if st == 0 {
        Ok((varint_value(b.subrange(off, end)), end))
    } else if st == 1 {
        Err(SegmentError::UnexpectedEof)
    } else {
        Err(SegmentError::VarintTooLarge)
    }
}

/// `n` delta-encoded positions at `off` of `b`, the first counted from `last`.
pub open spec fn decode_positions(b: Seq<u8>, off: int, n: nat, last: u32) -> Decoded<Seq<Position>>
    decreases n,
{
    if n == 0 {
        Decoded::Done(Seq::empty(), off)
    } else {
        match varint_at(b, off) {
            Err(e) => Decoded::Failed(e),
            Ok((d, end)) => if d > u32::MAX {
                Decoded::Failed(SegmentError::DoesNotFitU32)
            } else if last + d > u32::MAX {
                Decoded::Overflowed
            } else {
                match decode_positions(b, end, (n - 1) as nat, (last + d) as u32) {
                    Decoded::Done(rest, e2) => Decoded::Done(seq![(last + d) as u32] + rest, e2),
                    Decoded::Failed(e) => Decoded::Failed(e),
                    Decoded::Overflowed => Decoded::Overflowed,
                }
            },
        }
    }
}

/// The posting at `off` of `b`, its document counted from `last_doc`: the document's distance,
/// the weight, the position count and the positions.
pub open spec fn posting_at(b: Seq<u8>, off: int, last_doc: DocId) -> Decoded<PostingV> {
    match varint_at(b, off) {
        Err(e) => Decoded::Failed(e),
        Ok((dd, e1)) => if last_doc + dd > u64::MAX {
            Decoded::Overflowed
        } else {
            match varint_at(b, e1) {
                Err(e) => Decoded::Failed(e),
                Ok((w, e2)) => if w > u16::MAX {
                    Decoded::Failed(SegmentError::DoesNotFitU16)
                } else {
                    match varint_at(b, e2) {
                        Err(e) => Decoded::Failed(e),
                        Ok((c, e3)) => if c > u32::MAX {
                            Decoded::Failed(SegmentError::DoesNotFitU32)
                        } else {
                            match decode_positions(b, e3, c as nat, 0) {
                                Decoded::Failed(e) => Decoded::Failed(e),
                                Decoded::Overflowed => Decoded::Overflowed,
                                Decoded::Done(ps, e4) => Decoded::Done(
                                    PostingV { doc_id: (last_doc + dd) as u64, positions: ps, weight: w as u16 },
                                    e4,
                                ),
                            }
                        },
                    }
                },
            }
        },
    }
}

/// `n` postings at `off` of `b`, the first document counted from `last_doc`.
pub open spec fn decode_postings(b: Seq<u8>, off: int, n: nat, last_doc: DocId) -> Decoded<Seq<PostingV>>
    decreases n,
{
    if n == 0 {
        Decoded::Done(Seq::empty(), off)
    } else {
        match posting_at(b, off, last_doc) {
            Decoded::Failed(e) => Decoded::Failed(e),
            Decoded::Overflowed => Decoded::Overflowed,
            Decoded::Done(p, e) => prefixed(seq![p], decode_postings(b, e, (n - 1) as nat, p.doc_id)),
        }
    }
}

/// Scanning a varint ends in one of its three outcomes, past where it started and not past the
/// input.
pub proof fn lemma_varint_scan_outcome(b: Seq<u8>, i: int, count: nat)
    requires
        0 <= i,
    ensures
        varint_scan(b, i, count).0 == 0 || varint_scan(b, i, count).0 == 1 || varint_scan(b, i, count).0 == 2,
        varint_scan(b, i, count).1 >= i,
        varint_scan(b, i, count).0 == 0 ==> i < varint_scan(b, i, count).1 <= b.len(),
    decreases b.len() - i,
{
    if i < b.len() && b[i] >= 0x80 && count + 1 < 10 {
        lemma_varint_scan_outcome(b, i + 1, count + 1);
    }
}

/// `d` with `p` put in front of what it decoded.
pub open spec fn prefixed<T>(p: Seq<T>, d: Decoded<Seq<T>>) -> Decoded<Seq<T>> {
    match d {
        Decoded::Done(r, e) => Decoded::Done(p + r, e),
        Decoded::Failed(e) => Decoded::Failed(e),
        Decoded::Overflowed => Decoded::Overflowed,
    }
}

/// What one decoding step gave: the value, a format error, or a sum too large for its type.
pub enum Step<T> {
    Got(T),
    Bad(SegmentError),
    TooLarge,
}

/// Decodes `n` delta-encoded positions at `*offset` of `bytes`, starting from 0.
fn read_positions(bytes: &[u8], offset: &mut usize, n: u32) -> (r: Step<Vec<Position>>)
    ensures
        match decode_positions(bytes@, *old(offset) as int, n as nat, 0) {
            Decoded::Done(ps, end) => r matches Step::Got(v) && v@ == ps && *final(offset) == end,
            Decoded::Failed(e) => r matches Step::Bad(x) && x == e,
            Decoded::Overflowed => r is TooLarge,
        },
{
    let ghost b = bytes@;
    let ghost start = *offset as int;
    let mut positions: Vec<Position> = Vec::new();
    let mut last: u32 = 0;
    let mut k: u32 = 0;
    while k < n
        invariant
            b == bytes@,
            k <= n,
            positions@.len() == k,
            decode_positions(b, start, n as nat, 0) == prefixed(
                positions@,
                decode_positions(b, *offset as int, (n - k) as nat, last),
            ),
            k > 0 ==> last == positions@.last(),
            k == 0 ==> last == 0,
            start == *old(offset) as int,
        decreases n - k,
    {
        let ghost off0 = *offset as int;
        proof {
            lemma_varint_scan_outcome(b, off0, 0);
        }
        let d = read_var_u32(bytes, offset);
        match d {
            Err(e) => {
                proof {
                    assert(decode_positions(b, off0, (n - k) as nat, last) == Decoded::<Seq<Position>>::Failed(e));
                }
                return Step::Bad(e);
            },
            Ok(delta) => {
                proof {
                    assert(varint_at(b, off0) == Ok::<(u64, int), SegmentError>((delta as u64, *offset as int)));
                }
                if delta > u32::MAX - last {
                    proof {
                        assert(decode_positions(b, off0, (n - k) as nat, last) is Overflowed);
                    }
                    return Step::TooLarge;
                }
                let p = last + delta;
                let ghost before = positions@;
                let ghost last0 = last;
                positions.push(p);
                last = p;
                proof {
                    let rest = decode_positions(b, *offset as int, (n - k - 1) as nat, p);
                    assert(decode_positions(b, off0, (n - k) as nat, last0) == prefixed(seq![p], rest));
                    assert(positions@ == before + seq![p]);
                    match rest {
                        Decoded::Done(r2, e2) => {
                            assert(before + (seq![p] + r2) =~= positions@ + r2);
                        },
                        _ => {},
                    }
                }
                k += 1;
            },
        }
    }
    proof {
        assert(positions@ + Seq::<Position>::empty() =~= positions@);
    }
    Step::Got(positions)
}

/// Decodes the posting at `*offset` of `bytes`, its document counted from `last_doc`.
fn read_posting(bytes: &[u8], offset: &mut usize, last_doc: DocId) -> (r: Step<Posting>)
    ensures
        match posting_at(bytes@, *old(offset) as int, last_doc) {
            Decoded::Done(p, end) => r matches Step::Got(x) && x@ == p && *final(offset) == end,
            Decoded::Failed(e) => r matches Step::Bad(x) && x == e,
            Decoded::Overflowed => r is TooLarge,
        },
{
    let ghost b = bytes@;
    let ghost off0 = *offset as int;
    proof {
        lemma_varint_scan_outcome(b, off0, 0);
    }
    let dd = match read_var_u64(bytes, offset) {
        Ok(v) => v,
        Err(e) => {
            return Step::Bad(e);
        },
    };
    let ghost e1 = *offset as int;
    proof {
        assert(varint_at(b, off0) == Ok::<(u64, int), SegmentError>((dd, e1)));
        lemma_varint_scan_outcome(b, e1, 0);
    }
    if dd > u64::MAX - last_doc {
        return Step::TooLarge;
    }
    let doc_id = last_doc + dd;
    let weight = match read_var_u16(bytes, offset) {
        Ok(v) => v,
        Err(e) => {
            return Step::Bad(e);
        },
    };
    let ghost e2 = *offset as int;
    proof {
        assert(varint_at(b, e1) == Ok::<(u64, int), SegmentError>((weight as u64, e2)));
        lemma_varint_scan_outcome(b, e2, 0);
    }
    let count = match read_var_u32(bytes, offset) {
        Ok(v) => v,
        Err(e) => {
            return Step::Bad(e);
        },
    };
    let ghost e3 = *offset as int;
    proof {
        assert(varint_at(b, e2) == Ok::<(u64, int), SegmentError>((count as u64, e3)));
    }
    match read_positions(bytes, offset, count) {
        Step::Got(positions) => Step::Got(Posting::with_weight(doc_id, positions, weight)),
        Step::Bad(e) => Step::Bad(e),
        Step::TooLarge => Step::TooLarge,
    }
}

/// Whether decoding `doc_freq` postings from `bytes` stays clear of sums too large for their
/// types, as `read_posting_list_into` needs; a format error counts as clear.
pub fn postings_decodable(bytes: &[u8], doc_freq: u32) -> (r: bool)
    ensures
        r == !(decode_postings(bytes@, 0, doc_freq as nat, 0) is Overflowed),
{
    let ghost b = bytes@;
    let ghost n = doc_freq as nat;
    let mut offset: usize = 0;
    let mut last_doc_id: u64 = 0;
    let mut k: u32 = 0;
    while k < doc_freq
        invariant
            b == bytes@,
            n == doc_freq as nat,
            k <= doc_freq,
            (decode_postings(b, 0, n, 0) is Overflowed) == (decode_postings(
                b,
                offset as int,
                (n - k) as nat,
                last_doc_id,
            ) is Overflowed),
        decreases doc_freq - k,
    {
        let ghost off0 = offset as int;
        let ghost last0 = last_doc_id;
        match read_posting(bytes, &mut offset, last_doc_id) {
            Step::Got(p) => {
                last_doc_id = p.doc_id;
                proof {
                    let rest = decode_postings(b, offset as int, (n - k - 1) as nat, last_doc_id);
                    assert(decode_postings(b, off0, (n - k) as nat, last0) == prefixed(seq![p@], rest));
                }
            },
            Step::Bad(e) => {
                proof {
                    assert(decode_postings(b, off0, (n - k) as nat, last0) == Decoded::<Seq<PostingV>>::Failed(e));
                }
                return true;
            },
            Step::TooLarge => {
                proof {
                    assert(decode_postings(b, off0, (n - k) as nat, last0) is Overflowed);
                }
                return false;
            },
        }
        k += 1;
    }
    true
}

/// Decodes `doc_freq` postings from `bytes` and appends them to `out`; stops at the first
/// format error. A sum that does not fit its type is left out by the precondition.
pub fn read_posting_list_into(bytes: &[u8], doc_freq: u32, out: &mut Vec<Posting>) -> (r: Result<(), SegmentError>)
    requires
        !(decode_postings(bytes@, 0, doc_freq as nat, 0) is Overflowed),
    ensures
        match decode_postings(bytes@, 0, doc_freq as nat, 0) {
            Decoded::Done(ps, _) => r is Ok && views(final(out)@) == views(old(out)@) + ps,
            Decoded::Failed(e) => r == Err::<(), SegmentError>(e),
            Decoded::Overflowed => false,
        },
        views(final(out)@).len() >= views(old(out)@).len(),
        views(final(out)@).subrange(0, views(old(out)@).len() as int) == views(old(out)@),
{
    let ghost b = bytes@;
    let ghost start = views(out@);
    let ghost n = doc_freq as nat;
    let mut offset: usize = 0;
    let mut last_doc_id: u64 = 0;
    let mut k: u32 = 0;
    while k < doc_freq
        invariant
            b == bytes@,
            n == doc_freq as nat,
            k <= doc_freq,
            start == views(old(out)@),
            views(out@).len() == start.len() + k,
            views(out@).subrange(0, start.len() as int) == start,
            !(decode_postings(b, 0, n, 0) is Overflowed),
            decode_postings(b, 0, n, 0) == prefixed(
                views(out@).subrange(start.len() as int, views(out@).len() as int),
                decode_postings(b, offset as int, (n - k) as nat, last_doc_id),
            ),
        decreases doc_freq - k,
    {
        let ghost off0 = offset as int;
        let ghost got = views(out@).subrange(start.len() as int, views(out@).len() as int);
        let ghost before = out@;
        let ghost last0 = last_doc_id;
        assert(!(posting_at(b, off0, last_doc_id) is Overflowed)) by {
            if posting_at(b, off0, last_doc_id) is Overflowed {
                assert(decode_postings(b, off0, (n - k) as nat, last_doc_id) is Overflowed);
            }
        }
        let posting = match read_posting(bytes, &mut offset, last_doc_id) {
            Step::Got(p) => p,
            Step::Bad(e) => {
                proof {
                    assert(decode_postings(b, off0, (n - k) as nat, last_doc_id) == Decoded::<Seq<PostingV>>::Failed(e));
                }
                return Err(e);
            },
            Step::TooLarge => {
                proof {
                    assert(false);
                }
                return Ok(());
            },
        };
        let ghost pv = posting@;
        last_doc_id = posting.doc_id;
        out.push(posting);
        proof {
            let rest = decode_postings(b, offset as int, (n - k - 1) as nat, last_doc_id);
            assert(decode_postings(b, off0, (n - k) as nat, last0) == prefixed(seq![pv], rest));
            assert(views(out@) =~= views(before).push(pv));
            let got2 = views(out@).subrange(start.len() as int, views(out@).len() as int);
            assert(got2 =~= got.push(pv));
            assert(views(out@).subrange(0, start.len() as int) =~= views(before).subrange(0, start.len() as int));
            match rest {
                Decoded::Done(r2, _) => {
                    assert(got + (seq![pv] + r2) =~= got2 + r2);
                },
                _ => {},
            }
        }
        k += 1;
    }
    proof {
        let got = views(out@).subrange(start.len() as int, views(out@).len() as int);
        assert(got + Seq::<PostingV>::empty() =~= got);
        assert(views(out@) =~= start + got);
    }
    Ok(())
}

/// The posting list that `bytes` holds with `doc_freq` postings, merged as `from_items` does.
pub fn read_posting_list(bytes: &[u8], doc_freq: u32) -> (r: Result<PostingList, SegmentError>)
    requires
        !(decode_postings(bytes@, 0, doc_freq as nat, 0) is Overflowed),
    ensures
        match decode_postings(bytes@, 0, doc_freq as nat, 0) {
            Decoded::Done(ps, _) => r matches Ok(l) && l.wf() && merged_from(ps, l@.items),
            Decoded::Failed(e) => r matches Err(x) && x == e,
            Decoded::Overflowed => false,
        },
{
    let mut postings: Vec<Posting> = Vec::new();
    match read_posting_list_into(bytes, doc_freq, &mut postings) {
        Ok(()) => {
            proof {
                assert(views(postings@) =~= Seq::<PostingV>::empty() + views(postings@));
                match decode_postings(bytes@, 0, doc_freq as nat, 0) {
                    Decoded::Done(ps, _) => {
                        assert(views(postings@) =~= ps);
                    },
                    _ => {},
                }
            }
            Ok(PostingList::from_items(postings))
        },
        Err(e) => Err(e),
    }
}

} // verus!

verus! {

/// The positions `ps` written front to back, each as the varint of its distance from the one
/// before (from `last` for the first).
pub open spec fn positions_forward(ps: Seq<Position>, last: Position) -> Seq<u8>
    decreases ps.len(),
{
    if ps.len() == 0 {
        Seq::empty()
    } else {
        varint_bytes((ps[0] - last) as u64) + positions_forward(ps.drop_first(), ps[0])
    }
}

/// The postings `ps` written front to back, each against the document of the one before
/// (against `last_doc` for the first).
pub open spec fn postings_forward(ps: Seq<PostingV>, last_doc: DocId) -> Seq<u8>
    decreases ps.len(),
{
    if ps.len() == 0 {
        Seq::empty()
    } else {
        encode_posting(ps[0], last_doc) + postings_forward(ps.drop_first(), ps[0].doc_id)
    }
}

proof fn lemma_positions_forward_last(ps: Seq<Position>, last: Position)
    requires
        ps.len() >= 1,
    ensures
        positions_forward(ps, last) == positions_forward(ps.drop_last(), last) + varint_bytes(
            (ps.last() - if ps.len() >= 2 { ps[ps.len() - 2] } else { last }) as u64,
        ),
    decreases ps.len(),
{
    let t = ps.drop_first();
    if ps.len() == 1 {
        assert(t =~= Seq::<Position>::empty());
        assert(ps.drop_last() =~= Seq::<Position>::empty());
        assert(positions_forward(t, ps[0]) == Seq::<u8>::empty());
        assert(ps.last() == ps[0]);
        assert(positions_forward(ps, last) =~= Seq::<u8>::empty() + varint_bytes((ps.last() - last) as u64));
    } else {
        lemma_positions_forward_last(t, ps[0]);
        assert(ps.drop_last().drop_first() =~= t.drop_last());
        assert(ps.drop_last()[0] == ps[0]);
        assert(t.last() == ps.last());
        assert(positions_forward(ps, last) =~= positions_forward(ps.drop_last(), last) + varint_bytes(
            (ps.last() - ps[ps.len() - 2]) as u64,
        ));
    }
}

/// The writer's position bytes are the forward ones.
proof fn lemma_positions_forward(ps: Seq<Position>, last: Position)
    ensures
        encode_positions(ps, last) == positions_forward(ps, last),
    decreases ps.len(),
{
    if ps.len() >= 1 {
        lemma_positions_forward(ps.drop_last(), last);
        lemma_positions_forward_last(ps, last);
    }
}

proof fn lemma_postings_forward_last(ps: Seq<PostingV>, last: DocId)
    requires
        ps.len() >= 1,
    ensures
        postings_forward(ps, last) == postings_forward(ps.drop_last(), last) + encode_posting(
            ps.last(),
            if ps.len() >= 2 { ps[ps.len() - 2].doc_id } else { last },
        ),
    decreases ps.len(),
{
    let t = ps.drop_first();
    if ps.len() == 1 {
        assert(t =~= Seq::<PostingV>::empty());
        assert(ps.drop_last() =~= Seq::<PostingV>::empty());
        assert(postings_forward(t, ps[0].doc_id) == Seq::<u8>::empty());
        assert(ps.last() == ps[0]);
        assert(postings_forward(ps, last) =~= Seq::<u8>::empty() + encode_posting(ps.last(), last));
    } else {
        lemma_postings_forward_last(t, ps[0].doc_id);
        assert(ps.drop_last().drop_first() =~= t.drop_last());
        assert(ps.drop_last()[0] == ps[0]);
        assert(t.last() == ps.last());
        assert(postings_forward(ps, last) =~= postings_forward(ps.drop_last(), last) + encode_posting(
            ps.last(),
            ps[ps.len() - 2].doc_id,
        ));
    }
}

/// The writer's posting bytes are the forward ones.
proof fn lemma_postings_forward(ps: Seq<PostingV>)
    ensures
        encode_postings(ps) == postings_forward(ps, 0),
    decreases ps.len(),
{
    if ps.len() >= 1 {
        lemma_postings_forward(ps.drop_last());
        lemma_postings_forward_last(ps, 0);
    }
}

/// A varint written between any two byte strings is read back.
proof fn lemma_varint_at(v: u64, prefix: Seq<u8>, rest: Seq<u8>)
    ensures
        varint_at(prefix + varint_bytes(v) + rest, prefix.len() as int) == Ok::<(u64, int), SegmentError>(
            (v, (prefix.len() + varint_bytes(v).len()) as int),
        ),
{
    lemma_varint_roundtrip(v, prefix, rest);
}

proof fn lemma_decode_positions_forward(ps: Seq<Position>, last: Position, prefix: Seq<u8>, rest: Seq<u8>)
    requires
        positions_nondecreasing(ps),
        ps.len() >= 1 ==> last <= ps[0],
    ensures
        decode_positions(prefix + positions_forward(ps, last) + rest, prefix.len() as int, ps.len(), last)
            == Decoded::Done(ps, (prefix.len() + positions_forward(ps, last).len()) as int),
    decreases ps.len(),
{
    let b = prefix + positions_forward(ps, last) + rest;
    if ps.len() == 0 {
        assert(ps =~= Seq::<Position>::empty());
    } else {
        let d = (ps[0] - last) as u64;
        let t = ps.drop_first();
        let p2 = prefix + varint_bytes(d);
        assert(b =~= prefix + varint_bytes(d) + (positions_forward(t, ps[0]) + rest));
        lemma_varint_at(d, prefix, positions_forward(t, ps[0]) + rest);
        assert(b =~= p2 + positions_forward(t, ps[0]) + rest);
        assert(positions_nondecreasing(t)) by {
            assert forall|i: int, j: int| 0 <= i <= j < t.len() implies t[i] <= t[j] by {
                assert(t[i] == ps[i + 1] && t[j] == ps[j + 1]);
            }
        }
        if t.len() >= 1 {
            assert(ps[0] <= ps[1]);
        }
        lemma_decode_positions_forward(t, ps[0], p2, rest);
        assert((last + d) as u32 == ps[0]);
        assert(seq![ps[0]] + t =~= ps);
    }
}

proof fn lemma_posting_at_forward(p: PostingV, last: DocId, prefix: Seq<u8>, rest: Seq<u8>)
    requires
        last <= p.doc_id,
        positions_nondecreasing(p.positions),
        p.positions.len() <= u32::MAX,
    ensures
        posting_at(prefix + encode_posting(p, last) + rest, prefix.len() as int, last)
            == Decoded::Done(p, (prefix.len() + encode_posting(p, last).len()) as int),
{
    let dd = (p.doc_id - last) as u64;
    let w = p.weight as u64;
    let c = (p.positions.len() as u32) as u64;
    let pos = positions_forward(p.positions, 0);
    lemma_positions_forward(p.positions, 0);
    let b = prefix + encode_posting(p, last) + rest;
    let p1 = prefix + varint_bytes(dd);
    let p2 = p1 + varint_bytes(w);
    let p3 = p2 + varint_bytes(c);
    assert(b =~= prefix + varint_bytes(dd) + (varint_bytes(w) + varint_bytes(c) + pos + rest));
    lemma_varint_at(dd, prefix, varint_bytes(w) + varint_bytes(c) + pos + rest);
    assert(b =~= p1 + varint_bytes(w) + (varint_bytes(c) + pos + rest));
    lemma_varint_at(w, p1, varint_bytes(c) + pos + rest);
    assert(b =~= p2 + varint_bytes(c) + (pos + rest));
    lemma_varint_at(c, p2, pos + rest);
    assert(b =~= p3 + pos + rest);
    lemma_decode_positions_forward(p.positions, 0, p3, rest);
    assert(c as nat == p.positions.len());
    assert(PostingV { doc_id: (last + dd) as u64, positions: p.positions, weight: w as u16 } == p);
}

proof fn lemma_decode_postings_forward(ps: Seq<PostingV>, last: DocId, prefix: Seq<u8>, rest: Seq<u8>)
    requires
        encodable(ps),
        forall|i: int| 0 <= i < ps.len() ==> (#[trigger] ps[i]).positions.len() <= u32::MAX,
        ps.len() >= 1 ==> last <= ps[0].doc_id,
    ensures
        decode_postings(prefix + postings_forward(ps, last) + rest, prefix.len() as int, ps.len(), last)
            == Decoded::Done(ps, (prefix.len() + postings_forward(ps, last).len()) as int),
    decreases ps.len(),
{
    let b = prefix + postings_forward(ps, last) + rest;
    if ps.len() == 0 {
        assert(ps =~= Seq::<PostingV>::empty());
    } else {
        let t = ps.drop_first();
        let p1 = prefix + encode_posting(ps[0], last);
        assert(b =~= prefix + encode_posting(ps[0], last) + (postings_forward(t, ps[0].doc_id) + rest));
        lemma_posting_at_forward(ps[0], last, prefix, postings_forward(t, ps[0].doc_id) + rest);
        assert(b =~= p1 + postings_forward(t, ps[0].doc_id) + rest);
        assert(encodable(t)) by {
            assert forall|i: int, j: int| 0 <= i < j < t.len() implies t[i].doc_id < t[j].doc_id by {
                assert(t[i] == ps[i + 1] && t[j] == ps[j + 1]);
            }
            assert forall|i: int| 0 <= i < t.len() implies positions_nondecreasing(#[trigger] t[i].positions) by {
                assert(t[i] == ps[i + 1]);
            }
        }
        assert forall|i: int| 0 <= i < t.len() implies (#[trigger] t[i]).positions.len() <= u32::MAX by {
            assert(t[i] == ps[i + 1]);
        }
        if t.len() >= 1 {
            assert(ps[0].doc_id < ps[1].doc_id);
        }
        lemma_decode_postings_forward(t, ps[0].doc_id, p1, rest);
        assert(seq![ps[0]] + t =~= ps);
    }
}

/// What the writer encodes of a posting list, the reader decodes again: the same postings, and
/// it stops right after their bytes, whatever follows. (A posting with more than `u32::MAX`
/// positions is left out: its count would not survive the `u32` it is written as.)
pub proof fn lemma_postings_roundtrip(ps: Seq<PostingV>, rest: Seq<u8>)
    requires
        encodable(ps),
        forall|i: int| 0 <= i < ps.len() ==> (#[trigger] ps[i]).positions.len() <= u32::MAX,
    ensures
        decode_postings(encode_postings(ps) + rest, 0, ps.len(), 0) == Decoded::Done(ps, encode_postings(ps).len() as int),
{
    lemma_postings_forward(ps);
    lemma_decode_postings_forward(ps, 0, Seq::empty(), rest);
    assert(Seq::<u8>::empty() + encode_postings(ps) + rest =~= encode_postings(ps) + rest);
}

} // verus!
