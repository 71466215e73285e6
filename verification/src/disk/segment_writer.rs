//! A whole segment in bytes, as the module `format` lays it out: the header, the postings of
//! every term one after the other, the document lengths, the dictionary pointing at the
//! postings, the numeric columns and the footer pointing at each part.

use vstd::prelude::*;

use crate::disk::bytes::le_bytes;
use crate::disk::format::{SegmentFooter, TermEntry, FOOTER_LEN, HEADER_LEN};
use crate::disk::reader::{entry_views, footer_check, lemma_dictionary_roundtrip, lemma_footer_roundtrip, lemma_header_accepted};
use crate::disk::segment::open_result;
use crate::disk::reader::TermEntryV;
use crate::disk::error::SegmentError;
use crate::disk::writer::{
    encodable, encode_posting_list, encode_postings, entries_bytes, footer_bytes, header_bytes, write_dictionary,
    write_footer, write_header, write_u32, write_u64, write_u8,
};
use crate::numeric::columns::{group_entries, NumericColumn, NumericColumns};
use crate::numeric::points::NumericValue;
use crate::posting::list::PostingList;
use crate::types::{DocId, XPathId};

verus! {

broadcast use vstd::string::group_string_axioms;

/// The postings of the terms, encoded one after the other.
pub open spec fn postings_image(terms: Seq<(String, XPathId, PostingList)>) -> Seq<u8>
    decreases terms.len(),
{
    if terms.len() == 0 {
        Seq::empty()
    } else {
        postings_image(terms.drop_last()) + encode_postings(terms.last().2@.items)
    }
}

/// Whether `es` are the dictionary entries of the first `n` terms: each names its term and
/// field path, points at its postings in a file where they start right after the header,
/// and carries its document count and weight bound (the counts and lengths written as `u32`).
pub open spec fn entries_point(terms: Seq<(String, XPathId, PostingList)>, es: Seq<TermEntry>, n: int) -> bool {
    &&& es.len() == n
    &&& forall|k: int|
        0 <= k < n ==> {
            &&& (#[trigger] es[k]).term@ == terms[k].0@
            &&& es[k].xpath == terms[k].1
            &&& es[k].postings_offset == (header_bytes().len() + postings_image(terms.take(k)).len()) as u64
            &&& es[k].postings_len == (encode_postings(terms[k].2@.items).len() as u32)
            &&& es[k].doc_freq == (terms[k].2@.items.len() as u32)
            &&& es[k].max_weight == terms[k].2@.max_weight
        }
}

/// The bytes of one document length: document, field path and length.
pub open spec fn doc_length_bytes(d: (DocId, XPathId, u32)) -> Seq<u8> {
    le_bytes(d.0 as nat, 8) + le_bytes(d.1 as nat, 4) + le_bytes(d.2 as nat, 4)
}

/// The document lengths, one after the other.
pub open spec fn doc_lengths_image(ds: Seq<(DocId, XPathId, u32)>) -> Seq<u8>
    decreases ds.len(),
{
    if ds.len() == 0 {
        Seq::empty()
    } else {
        doc_lengths_image(ds.drop_last()) + doc_length_bytes(ds.last())
    }
}

/// The bytes of a number: a kind byte (0 for an integer, 1 for a float), then its 64 bits.
pub open spec fn value_bytes(v: NumericValue) -> Seq<u8> {
    match v {
        NumericValue::Int(i) => seq![0u8] + le_bytes((i as u64) as nat, 8),
        NumericValue::Float(b) => seq![1u8] + le_bytes(b as nat, 8),
    }
}

/// The pairs of a column, each its number and then its document.
pub open spec fn column_entries_image(es: Seq<(NumericValue, DocId)>) -> Seq<u8>
    decreases es.len(),
{
    if es.len() == 0 {
        Seq::empty()
    } else {
        column_entries_image(es.drop_last()) + value_bytes(es.last().0) + le_bytes(es.last().1 as nat, 8)
    }
}

/// One column: its field path, its number of pairs, then the pairs in the order of values.
pub open spec fn column_image(x: XPathId, c: NumericColumn) -> Seq<u8> {
    le_bytes(x as nat, 4) + le_bytes((group_entries(c.groups()).len() as u32) as nat, 4) + column_entries_image(
        group_entries(c.groups()),
    )
}

/// The columns, one after the other.
pub open spec fn columns_image(cs: Seq<(XPathId, NumericColumn)>) -> Seq<u8>
    decreases cs.len(),
{
    if cs.len() == 0 {
        Seq::empty()
    } else {
        columns_image(cs.drop_last()) + column_image(cs.last().0, cs.last().1)
    }
}

/// The footer of a segment whose parts have these lengths.
pub open spec fn footer_for(p: int, d: int, dict: int, c: int, terms: nat) -> SegmentFooter {
    let h = header_bytes().len() as int;
    SegmentFooter {
        doc_lengths_offset: (h + p) as u64,
        doc_lengths_len: d as u64,
        dictionary_offset: (h + p + d) as u64,
        dictionary_len: dict as u64,
        numeric_fields_offset: (h + p + d + dict) as u64,
        numeric_fields_len: c as u64,
        term_count: terms as u32,
    }
}

/// The bytes of the segment of `terms` (with the dictionary entries `es`), the document
/// lengths `ds` and the columns `cs`.
pub open spec fn segment_image(
    terms: Seq<(String, XPathId, PostingList)>,
    es: Seq<TermEntry>,
    ds: Seq<(DocId, XPathId, u32)>,
    cs: Seq<(XPathId, NumericColumn)>,
) -> Seq<u8> {
    let p = postings_image(terms);
    let d = le_bytes((ds.len() as u32) as nat, 4) + doc_lengths_image(ds);
    let dict = le_bytes(es.len(), 4) + entries_bytes(es);
    let c = le_bytes((cs.len() as u32) as nat, 4) + columns_image(cs);
    header_bytes() + p + d + dict + c + footer_bytes(
        footer_for(p.len() as int, d.len() as int, dict.len() as int, c.len() as int, terms.len()),
    )
}

/// Writes the segment of `terms` (in the order the dictionary is to have them), the document
/// lengths `doc_lengths` and the numeric `columns`, as `segment_image` lays them out.
pub fn write_segment_bytes(
    terms: &[(String, XPathId, PostingList)],
    doc_lengths: &[(DocId, XPathId, u32)],
    columns: &NumericColumns,
) -> (r: Vec<u8>)
    requires
        terms@.len() <= u32::MAX,
        forall|i: int|
            0 <= i < terms@.len() ==> {
                &&& (#[trigger] terms@[i]).2.wf()
                &&& encodable(terms@[i].2@.items)
                &&& vstd::utf8::encode_utf8(terms@[i].0@).len() <= u32::MAX
            },
    ensures
        exists|es: Seq<TermEntry>|
            entries_point(terms@, es, terms@.len() as int) && r@ == #[trigger] segment_image(
                terms@,
                es,
                doc_lengths@,
                columns.column_seq(),
            ),
{
    let mut out: Vec<u8> = Vec::new();
    write_header(&mut out);
    let mut entries: Vec<TermEntry> = Vec::new();
    let mut i: usize = 0;
    proof {
        assert(terms@.take(0) =~= Seq::<(String, XPathId, PostingList)>::empty());
        assert(out@ =~= header_bytes() + postings_image(terms@.take(0)));
    }
    while i < terms.len()
        invariant
            i <= terms@.len(),
            terms@.len() <= u32::MAX,
            forall|j: int|
                0 <= j < terms@.len() ==> {
                    &&& (#[trigger] terms@[j]).2.wf()
                    &&& encodable(terms@[j].2@.items)
                    &&& vstd::utf8::encode_utf8(terms@[j].0@).len() <= u32::MAX
                },
            out@ == header_bytes() + postings_image(terms@.take(i as int)),
            entries_point(terms@, entries@, i as int),
        decreases terms@.len() - i,
    {
        let offset = out.len() as u64;
        let before = out.len();
        let ghost o0 = out@;
        let list = &terms[i].2;
        assert(terms@[i as int].2 == *list);
        encode_posting_list(&mut out, list);
        let len = (out.len() - before) as u32;
        let ghost e0 = entries@;
        entries.push(
            TermEntry {
                term: terms[i].0.clone(),
                xpath: terms[i].1,
                postings_offset: offset,
                postings_len: len,
                doc_freq: list.len() as u32,
                max_weight: list.max_weight(),
            },
        );
        proof {
            let t = terms@.take(i + 1);
            assert(t.drop_last() =~= terms@.take(i as int));
            assert(t.last() == terms@[i as int]);
            assert(out@ =~= header_bytes() + postings_image(t));
            assert forall|k: int| 0 <= k < i + 1 implies {
                &&& (#[trigger] entries@[k]).term@ == terms@[k].0@
                &&& entries@[k].xpath == terms@[k].1
                &&& entries@[k].postings_offset == (header_bytes().len() + postings_image(terms@.take(k)).len()) as u64
                &&& entries@[k].postings_len == (encode_postings(terms@[k].2@.items).len() as u32)
                &&& entries@[k].doc_freq == (terms@[k].2@.items.len() as u32)
                &&& entries@[k].max_weight == terms@[k].2@.max_weight
            } by {
                if k < i {
                    assert(entries@[k] == e0[k]);
                }
            }
        }
        i += 1;
    }
    proof {
        assert(terms@.take(terms@.len() as int) =~= terms@);
    }
    let ghost p = postings_image(terms@);
    let doc_lengths_offset = out.len() as u64;
    let ghost before_d = out@;
    write_u32(&mut out, doc_lengths.len() as u32);
    let mut j: usize = 0;
    proof {
        assert(doc_lengths@.take(0) =~= Seq::<(DocId, XPathId, u32)>::empty());
    }
    while j < doc_lengths.len()
        invariant
            j <= doc_lengths@.len(),
            out@ == before_d + le_bytes((doc_lengths@.len() as u32) as nat, 4) + doc_lengths_image(doc_lengths@.take(j as int)),
        decreases doc_lengths@.len() - j,
    {
        let (d, x, l) = doc_lengths[j];
        write_u64(&mut out, d);
        write_u32(&mut out, x);
        write_u32(&mut out, l);
        proof {
            let t = doc_lengths@.take(j + 1);
            assert(t.drop_last() =~= doc_lengths@.take(j as int));
            assert(t.last() == doc_lengths@[j as int]);
        }
        j += 1;
    }
    proof {
        assert(doc_lengths@.take(doc_lengths@.len() as int) =~= doc_lengths@);
    }
    let doc_lengths_len = out.len() as u64 - doc_lengths_offset;
    let dictionary_offset = out.len() as u64;
    let ghost before_dict = out@;
    write_dictionary(&mut out, entries.as_slice());
    let dictionary_len = out.len() as u64 - dictionary_offset;
    let numeric_fields_offset = out.len() as u64;
    let ghost before_c = out@;
    let cols = columns.iter();
    write_u32(&mut out, cols.len() as u32);
    let mut k: usize = 0;
    proof {
        assert(columns.column_seq().take(0) =~= Seq::<(XPathId, NumericColumn)>::empty());
    }
    while k < cols.len()
        invariant
            k <= cols@.len(),
            cols@.len() == columns.column_seq().len(),
            forall|m: int| 0 <= m < cols@.len() ==> (#[trigger] cols@[m]).0 == columns.column_seq()[m].0 && *cols@[m].1
                == columns.column_seq()[m].1,
            out@ == before_c + le_bytes((cols@.len() as u32) as nat, 4) + columns_image(columns.column_seq().take(k as int)),
        decreases cols@.len() - k,
    {
        let (x, c) = cols[k];
        let pairs = c.entries();
        let ghost before_col = out@;
        write_u32(&mut out, x);
        write_u32(&mut out, pairs.len() as u32);
        let mut m: usize = 0;
        proof {
            assert(pairs@.take(0) =~= Seq::<(NumericValue, DocId)>::empty());
        }
        while m < pairs.len()
            invariant
                m <= pairs@.len(),
                out@ == before_col + le_bytes(x as nat, 4) + le_bytes((pairs@.len() as u32) as nat, 4)
                    + column_entries_image(pairs@.take(m as int)),
            decreases pairs@.len() - m,
        {
            let (v, d) = pairs[m];
            match v {
                NumericValue::Int(n) => {
                    write_u8(&mut out, 0);
                    write_u64(&mut out, n as u64);
                },
                NumericValue::Float(b) => {
                    write_u8(&mut out, 1);
                    write_u64(&mut out, b);
                },
            }
            write_u64(&mut out, d);
            proof {
                let t = pairs@.take(m + 1);
                assert(t.drop_last() =~= pairs@.take(m as int));
                assert(t.last() == pairs@[m as int]);
            }
            m += 1;
        }
        proof {
            assert(pairs@.take(pairs@.len() as int) =~= pairs@);
            assert(out@ =~= before_col + column_image(x, *c));
            let t = columns.column_seq().take(k + 1);
            assert(t.drop_last() =~= columns.column_seq().take(k as int));
            assert(t.last() == columns.column_seq()[k as int]);
        }
        k += 1;
    }
    proof {
        assert(columns.column_seq().take(columns.column_seq().len() as int) =~= columns.column_seq());
    }
    let numeric_fields_len = out.len() as u64 - numeric_fields_offset;
    let footer = SegmentFooter {
        doc_lengths_offset,
        doc_lengths_len,
        dictionary_offset,
        dictionary_len,
        numeric_fields_offset,
        numeric_fields_len,
        term_count: terms.len() as u32,
    };
    let ghost before_f = out@;
    write_footer(&mut out, &footer);
    proof {
        let d = le_bytes((doc_lengths@.len() as u32) as nat, 4) + doc_lengths_image(doc_lengths@);
        let dict = le_bytes(entries@.len(), 4) + entries_bytes(entries@);
        let c = le_bytes((columns.column_seq().len() as u32) as nat, 4) + columns_image(columns.column_seq());
        assert(before_dict == header_bytes() + p + d);
        assert(before_c == header_bytes() + p + d + dict);
        assert(before_f == header_bytes() + p + d + dict + c);
        assert(footer == footer_for(p.len() as int, d.len() as int, dict.len() as int, c.len() as int, terms@.len()));
        assert(out@ =~= segment_image(terms@, entries@, doc_lengths@, columns.column_seq()));
    }
    out
}

/// Entries that name the terms can be written where the terms can.
proof fn lemma_entries_writable(terms: Seq<(String, XPathId, PostingList)>, es: Seq<TermEntry>)
    requires
        entries_point(terms, es, terms.len() as int),
        forall|i: int| 0 <= i < terms.len() ==> vstd::utf8::encode_utf8((#[trigger] terms[i]).0@).len() <= u32::MAX,
    ensures
        es.len() == terms.len(),
        forall|i: int| 0 <= i < es.len() ==> crate::disk::reader::entry_writable(#[trigger] es[i]),
{
    assert forall|i: int| 0 <= i < es.len() implies crate::disk::reader::entry_writable(#[trigger] es[i]) by {
        assert(es[i].term@ == terms[i].0@);
    }
}

/// A segment written by `write_segment_bytes` opens again, and its dictionary reads back as
/// the entries that were written: one per term, in the order written, each pointing at that
/// term's postings. (The whole segment must fit in memory's address range.)
#[verifier::rlimit(40)]
pub proof fn lemma_segment_roundtrip(
    terms: Seq<(String, XPathId, PostingList)>,
    es: Seq<TermEntry>,
    ds: Seq<(DocId, XPathId, u32)>,
    cs: Seq<(XPathId, NumericColumn)>,
)
    requires
        terms.len() <= u32::MAX,
        entries_point(terms, es, terms.len() as int),
        forall|i: int| 0 <= i < terms.len() ==> vstd::utf8::encode_utf8((#[trigger] terms[i]).0@).len() <= u32::MAX,
        segment_image(terms, es, ds, cs).len() <= usize::MAX,
    ensures
        open_result(segment_image(terms, es, ds, cs)) == Ok::<Seq<TermEntryV>, SegmentError>(entry_views(es)),
{
    let h = header_bytes();
    let p = postings_image(terms);
    let d = le_bytes((ds.len() as u32) as nat, 4) + doc_lengths_image(ds);
    let dict = le_bytes(es.len(), 4) + entries_bytes(es);
    let c = le_bytes((cs.len() as u32) as nat, 4) + columns_image(cs);
    let f = footer_for(p.len() as int, d.len() as int, dict.len() as int, c.len() as int, terms.len());
    let fb = footer_bytes(f);
    let s = segment_image(terms, es, ds, cs);
    assert(s == h + p + d + dict + c + fb);
    crate::disk::bytes::lemma_le_bytes_len(crate::disk::format::VERSION as nat, 4);
    crate::disk::bytes::lemma_le_bytes_len(es.len(), 4);
    crate::disk::bytes::lemma_le_bytes_len(f.doc_lengths_offset as nat, 8);
    crate::disk::bytes::lemma_le_bytes_len(f.doc_lengths_len as nat, 8);
    crate::disk::bytes::lemma_le_bytes_len(f.dictionary_offset as nat, 8);
    crate::disk::bytes::lemma_le_bytes_len(f.dictionary_len as nat, 8);
    crate::disk::bytes::lemma_le_bytes_len(f.numeric_fields_offset as nat, 8);
    crate::disk::bytes::lemma_le_bytes_len(f.numeric_fields_len as nat, 8);
    crate::disk::bytes::lemma_le_bytes_len(f.term_count as nat, 4);
    assert(h.len() == 12);
    assert(fb.len() == 52);
    let body = h + p + d + dict + c;
    assert(s =~= body + fb);
    lemma_footer_roundtrip(body, f);
    let rest = p + d + dict + c + fb;
    assert(s =~= h + rest);
    lemma_header_accepted(rest);
    lemma_entries_writable(terms, es);
    if es.len() == 0 {
        assert(entries_bytes(es) =~= Seq::<u8>::empty());
    }
    assert(footer_check(s, f) == Ok::<(), SegmentError>(()));
    let before = h + p + d;
    let after = c + fb;
    assert(s =~= before + le_bytes(es.len(), 4) + entries_bytes(es) + after);
    lemma_dictionary_roundtrip(before, es, after, f);
}

} // verus!
