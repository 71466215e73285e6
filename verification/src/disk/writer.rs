//! Encoding of a segment into bytes; app/ writes the bytes to a file.

use vstd::prelude::*;

use crate::disk::bytes::{le_bytes, push_le};
use crate::disk::codec::{push_var_u16, push_var_u32, push_var_u64, varint_bytes};
use crate::disk::format::{magic_bytes, SegmentFooter, SegmentHeader, TermEntry, VERSION};
use crate::posting::item::PostingV;
use crate::posting::list::PostingList;
use crate::posting::spec::{docs_strictly_increasing, positions_nondecreasing, views};
use crate::types::{DocId, Position, XPathId};

verus! {

/// The bytes of a header.
pub open spec fn header_bytes() -> Seq<u8> {
    magic_bytes() + le_bytes(VERSION as nat, 4)
}

/// The bytes of a footer.
pub open spec fn footer_bytes(f: SegmentFooter) -> Seq<u8> {
    le_bytes(f.doc_lengths_offset as nat, 8) + le_bytes(f.doc_lengths_len as nat, 8) + le_bytes(
        f.dictionary_offset as nat,
        8,
    ) + le_bytes(f.dictionary_len as nat, 8) + le_bytes(f.numeric_fields_offset as nat, 8)
        + le_bytes(f.numeric_fields_len as nat, 8) + le_bytes(f.term_count as nat, 4)
}

/// The delta-encoded positions `ps`, each as a varint of its distance from
/// the one before (from `last` for the first).
pub open spec fn encode_positions(ps: Seq<Position>, last: Position) -> Seq<u8>
    decreases ps.len(),
{
    if ps.len() == 0 {
        Seq::empty()
    } else {
        encode_positions(ps.drop_last(), last) + varint_bytes(
            (ps.last() - if ps.len() >= 2 { ps[ps.len() - 2] } else { last }) as u64,
        )
    }
}

/// One posting: the varint distance of its document from `last_doc`, its
/// weight, its position count and its delta-encoded positions.
pub open spec fn encode_posting(p: PostingV, last_doc: DocId) -> Seq<u8> {
    varint_bytes((p.doc_id - last_doc) as u64) + varint_bytes(p.weight as u64) + varint_bytes(
        (p.positions.len() as u32) as u64,
    ) + encode_positions(p.positions, 0)
}

/// The postings `ps`, each encoded against the document of the one before.
pub open spec fn encode_postings(ps: Seq<PostingV>) -> Seq<u8>
    decreases ps.len(),
{
    if ps.len() == 0 {
        Seq::empty()
    } else {
        encode_postings(ps.drop_last()) + encode_posting(
            ps.last(),
            if ps.len() >= 2 { ps[ps.len() - 2].doc_id } else { 0 },
        )
    }
}

/// Postings the encoder accepts: strictly increasing documents and, inside
/// each posting, positions that never decrease.
pub open spec fn encodable(ps: Seq<PostingV>) -> bool {
    &&& docs_strictly_increasing(ps)
    &&& forall|i: int| 0 <= i < ps.len() ==> positions_nondecreasing(#[trigger] ps[i].positions)
}

/// The bytes of a string: its UTF-8 length as a `u32`, then the UTF-8 bytes.
pub open spec fn string_bytes(s: Seq<char>) -> Seq<u8> {
    le_bytes((vstd::utf8::encode_utf8(s).len() as u32) as nat, 4) + vstd::utf8::encode_utf8(s)
}

/// The bytes of one dictionary entry.
pub open spec fn entry_bytes(e: TermEntry) -> Seq<u8> {
    string_bytes(e.term@) + le_bytes(e.xpath as nat, 4) + le_bytes(e.postings_offset as nat, 8)
        + le_bytes(e.postings_len as nat, 4) + le_bytes(e.doc_freq as nat, 4) + le_bytes(
        e.max_weight as nat,
        2,
    )
}

/// The bytes of the entries `es`, one after the other.
pub open spec fn entries_bytes(es: Seq<TermEntry>) -> Seq<u8>
    decreases es.len(),
{
    if es.len() == 0 {
        Seq::empty()
    } else {
        entries_bytes(es.drop_last()) + entry_bytes(es.last())
    }
}

/// Appends one byte.
pub fn write_u8(out: &mut Vec<u8>, value: u8)
    ensures
        final(out)@ == old(out)@ + seq![value],
{
    out.push(value);
    assert(out@ =~= old(out)@ + seq![value]);
}

/// Appends a `u16`, little-endian.
pub fn write_u16(out: &mut Vec<u8>, value: u16)
    ensures
        final(out)@ == old(out)@ + le_bytes(value as nat, 2),
{
    push_le(out, value as u64, 2);
}

/// Appends a `u32`, little-endian.
pub fn write_u32(out: &mut Vec<u8>, value: u32)
    ensures
        final(out)@ == old(out)@ + le_bytes(value as nat, 4),
{
    push_le(out, value as u64, 4);
}

/// Appends a `u64`, little-endian.
pub fn write_u64(out: &mut Vec<u8>, value: u64)
    ensures
        final(out)@ == old(out)@ + le_bytes(value as nat, 8),
{
    push_le(out, value, 8);
}

/// Appends the bytes of `bytes`.
pub fn write_bytes(out: &mut Vec<u8>, bytes: &[u8])
    ensures
        final(out)@ == old(out)@ + bytes@,
{
    let mut i: usize = 0;
    while i < bytes.len()
        invariant
            i <= bytes.len(),
            out@ == old(out)@ + bytes@.subrange(0, i as int),
        decreases bytes.len() - i,
    {
        out.push(bytes[i]);
        proof {
            assert(out@ =~= old(out)@ + bytes@.subrange(0, i + 1));
        }
        i += 1;
    }
    assert(bytes@.subrange(0, bytes.len() as int) =~= bytes@);
}

/// Appends the segment header: the magic and the version.
pub fn write_header(out: &mut Vec<u8>)
    ensures
        final(out)@ == old(out)@ + header_bytes(),
{
    let header = SegmentHeader::current();
    write_bytes(out, &header.magic);
    write_u32(out, header.version);
    assert(out@ =~= old(out)@ + header_bytes());
}

/// Appends the footer, field by field.
pub fn write_footer(out: &mut Vec<u8>, footer: &SegmentFooter)
    ensures
        final(out)@ == old(out)@ + footer_bytes(*footer),
{
    write_u64(out, footer.doc_lengths_offset);
    write_u64(out, footer.doc_lengths_len);
    write_u64(out, footer.dictionary_offset);
    write_u64(out, footer.dictionary_len);
    write_u64(out, footer.numeric_fields_offset);
    write_u64(out, footer.numeric_fields_len);
    write_u32(out, footer.term_count);
    assert(out@ =~= old(out)@ + footer_bytes(*footer));
}

/// Appends one dictionary entry: the term's UTF-8 length and bytes, then where its postings
/// lie. The term's UTF-8 length must fit the `u32` it is written as.
pub fn write_entry(out: &mut Vec<u8>, entry: &TermEntry)
    requires
        vstd::utf8::encode_utf8(entry.term@).len() <= u32::MAX,
    ensures
        final(out)@ == old(out)@ + entry_bytes(*entry),
{
    let bytes = entry.term.as_str().as_bytes();
    write_u32(out, bytes.len() as u32);
    write_bytes(out, bytes);
    write_u32(out, entry.xpath);
    write_u64(out, entry.postings_offset);
    write_u32(out, entry.postings_len);
    write_u32(out, entry.doc_freq);
    write_u16(out, entry.max_weight);
    assert(out@ =~= old(out)@ + entry_bytes(*entry));
}

/// Appends a dictionary in the flat form the module `format` describes (not the
/// per-field FST form): the number of entries as a `u32`, then each entry in order.
pub fn write_dictionary(out: &mut Vec<u8>, entries: &[TermEntry])
    requires
        entries@.len() <= u32::MAX,
        forall|i: int| 0 <= i < entries@.len() ==> vstd::utf8::encode_utf8((#[trigger] entries@[i]).term@).len() <= u32::MAX,
    ensures
        final(out)@ == old(out)@ + le_bytes(entries@.len(), 4) + entries_bytes(entries@),
{
    write_u32(out, entries.len() as u32);
    let ghost head = out@;
    let mut i: usize = 0;
    proof {
        assert(entries@.take(0) =~= Seq::<TermEntry>::empty());
        assert(out@ =~= head + entries_bytes(entries@.take(0)));
    }
    while i < entries.len()
        invariant
            i <= entries@.len(),
            head == old(out)@ + le_bytes(entries@.len(), 4),
            out@ == head + entries_bytes(entries@.take(i as int)),
            forall|k: int| 0 <= k < entries@.len() ==> vstd::utf8::encode_utf8((#[trigger] entries@[k]).term@).len() <= u32::MAX,
        decreases entries@.len() - i,
    {
        write_entry(out, &entries[i]);
        proof {
            let t = entries@.take(i + 1);
            assert(t.drop_last() =~= entries@.take(i as int));
            assert(t.last() == entries@[i as int]);
            assert(out@ =~= head + entries_bytes(t));
        }
        i += 1;
    }
    assert(entries@.take(entries@.len() as int) =~= entries@);
}

/// Appends the postings of `list`, each encoded against the document of the
/// one before, with positions delta-encoded inside each posting.
pub fn encode_posting_list(out: &mut Vec<u8>, list: &PostingList)
    requires
        list.wf(),
        encodable(list@.items),
    ensures
        final(out)@ == old(out)@ + encode_postings(list@.items),
{
    let items = list.items();
    let ghost ps = views(items@);
    let mut last_doc_id: u64 = 0;
    let mut i: usize = 0;
    proof {
        assert(ps.take(0) =~= Seq::<PostingV>::empty());
        assert(out@ =~= old(out)@ + encode_postings(ps.take(0)));
    }
    while i < items.len()
        invariant
            i <= items.len(),
            ps == views(items@),
            ps == list@.items,
            encodable(ps),
            out@ == old(out)@ + encode_postings(ps.take(i as int)),
            last_doc_id == if i >= 1 { ps[i - 1].doc_id } else { 0 },
            i < items.len() ==> last_doc_id <= ps[i as int].doc_id,
        decreases items.len() - i,
    {
        let posting = &items[i];
        let ghost pv = ps[i as int];
        let ghost before = out@;
        let doc_delta = posting.doc_id - last_doc_id;
        last_doc_id = posting.doc_id;
        push_var_u64(out, doc_delta);
        push_var_u16(out, posting.weight);
        push_var_u32(out, posting.positions.len() as u32);
        let ghost mid = out@;
        let mut last_position: u32 = 0;
        let mut k: usize = 0;
        proof {
            assert(pv.positions.take(0) =~= Seq::<Position>::empty());
            assert(out@ =~= mid + encode_positions(pv.positions.take(0), 0));
        }
        while k < posting.positions.len()
            invariant
                k <= posting.positions.len(),
                posting.positions@ == pv.positions,
                positions_nondecreasing(pv.positions),
                out@ == mid + encode_positions(pv.positions.take(k as int), 0),
                last_position == if k >= 1 { pv.positions[k - 1] } else { 0 },
                k < posting.positions.len() ==> last_position <= pv.positions[k as int],
            decreases posting.positions.len() - k,
        {
            let position = posting.positions[k];
            let position_delta = position - last_position;
            last_position = position;
            push_var_u32(out, position_delta);
            proof {
                let t = pv.positions.take(k + 1);
                assert(t.drop_last() =~= pv.positions.take(k as int));
                assert(encode_positions(t, 0) == encode_positions(t.drop_last(), 0) + varint_bytes(
                    (t.last() - if t.len() >= 2 { t[t.len() - 2] } else { 0 }) as u64,
                ));
                if k + 1 < posting.positions.len() {
                    assert(pv.positions[k as int] <= pv.positions[k + 1]);
                }
            }
            k += 1;
        }
        proof {
            assert(pv.positions.take(k as int) =~= pv.positions);
            let t = ps.take(i + 1);
            assert(t.drop_last() =~= ps.take(i as int));
            assert(encode_postings(t) == encode_postings(t.drop_last()) + encode_posting(
                t.last(),
                if t.len() >= 2 { t[t.len() - 2].doc_id } else { 0 },
            ));
            assert(out@ =~= old(out)@ + encode_postings(t));
            if i + 1 < items.len() {
                assert(ps[i as int].doc_id < ps[i + 1].doc_id);
            }
        }
        i += 1;
    }
    proof {
        assert(ps.take(items.len() as int) =~= ps);
    }
}

} // verus!
