//! Segment file layout, all integers little-endian:
//!
//! header: magic (8 bytes) and version (u32), 12 bytes;
//! postings: the encoded posting list of every term, one after the other;
//! doc lengths: u32 count, then (u64 doc id, u32 field, u32 length) each;
//! dictionary: u32 term count, then per term its text (u32 length and
//! UTF-8 bytes), u32 field, u64 postings offset, u32 postings length,
//! u32 document frequency and u16 largest weight;
//!
//! This dictionary is a flat list of entries that spell their terms out, in
//! ascending (field, term) order. It is not the per-field dictionary in which
//! each field holds (u32 field, u32 term count, u64 FST length, FST bytes) and
//! a fixed-width metadata array indexed by the FST's ordinals: this library
//! neither writes nor reads that form, and a segment whose dictionary is in it
//! is not read as such (its first word is taken as a term count);
//! numeric fields: the column data;
//! footer: offset and length (u64 each) of the doc lengths, the dictionary
//! and the numeric fields, then the u32 term count, 52 bytes.

use vstd::prelude::*;

use crate::types::XPathId;

verus! {

/// The first eight bytes of every segment file.
pub const MAGIC: [u8; 8] = [66u8, 65u8, 78u8, 65u8, 78u8, 65u8, 95u8, 73u8];

/// The format version this code writes and reads.
pub const VERSION: u32 = 9;

/// Bytes in the header.
pub const HEADER_LEN: usize = 12;

/// Bytes in the footer.
pub const FOOTER_LEN: usize = 52;

/// The magic as a sequence.
pub open spec fn magic_bytes() -> Seq<u8> {
    seq![66u8, 65u8, 78u8, 65u8, 78u8, 65u8, 95u8, 73u8]
}

/// The fixed start of a segment file.
#[derive(Debug, Clone, Copy, PartialEq, Eq)]
pub struct SegmentHeader {
    pub magic: [u8; 8],
    pub version: u32,
}

impl SegmentHeader {
    /// The header this code writes.
    pub fn current() -> (r: Self)
        ensures
            r.magic@ == magic_bytes(),
            r.version == VERSION,
    {
        let r = SegmentHeader { magic: [66u8, 65u8, 78u8, 65u8, 78u8, 65u8, 95u8, 73u8], version: VERSION };
        assert(r.magic@ =~= magic_bytes());
        r
    }
}

/// Where the sections after the postings lie, and how many terms there are.
#[derive(Debug, Clone, Copy, PartialEq, Eq, Structural)]
pub struct SegmentFooter {
    pub doc_lengths_offset: u64,
    pub doc_lengths_len: u64,
    pub dictionary_offset: u64,
    pub dictionary_len: u64,
    pub numeric_fields_offset: u64,
    pub numeric_fields_len: u64,
    pub term_count: u32,
}

/// One term of the dictionary and where its postings lie.
#[derive(Debug, PartialEq, Eq)]
pub struct TermEntry {
    pub term: String,
    pub xpath: XPathId,
    pub postings_offset: u64,
    pub postings_len: u32,
    pub doc_freq: u32,
    pub max_weight: u16,
}

} // verus!
