//! Decoding of segment bytes; app/ maps the file and hands the bytes over.

use vstd::prelude::*;
use vstd::slice::slice_subrange;
use vstd::utf8::{decode_utf8, valid_utf8};

use crate::disk::bytes::{le_value, read_le};
use crate::disk::error::SegmentError;
use crate::disk::format::{magic_bytes, SegmentFooter, TermEntry, FOOTER_LEN, HEADER_LEN, VERSION};
use crate::types::XPathId;

verus! {

/// Mathematical value of a dictionary entry.
pub ghost struct TermEntryV {
    pub term: Seq<char>,
    pub xpath: XPathId,
    pub postings_offset: u64,
    pub postings_len: u32,
    pub doc_freq: u32,
    pub max_weight: u16,
}

impl View for TermEntry {
    type V = TermEntryV;

    open spec fn view(&self) -> TermEntryV {
        TermEntryV {
            term: self.term@,
            xpath: self.xpath,
            postings_offset: self.postings_offset,
            postings_len: self.postings_len,
            doc_freq: self.doc_freq,
            max_weight: self.max_weight,
        }
    }
}

/// The entries of a vector, taken by value.
pub open spec fn entry_views(v: Seq<TermEntry>) -> Seq<TermEntryV> {
    v.map_values(|e: TermEntry| e@)
}

/// The little-endian number in `s[off..off + n]`.
pub open spec fn le_at(s: Seq<u8>, off: int, n: int) -> nat {
    le_value(s.subrange(off, off + n))
}

/// What `validate_header` answers for the segment `s`.
pub open spec fn header_check(s: Seq<u8>) -> Result<(), SegmentError> {
    if s.len() < HEADER_LEN + FOOTER_LEN {
        Err(SegmentError::TooSmall)
    } else if s.subrange(0, 8) != magic_bytes() {
        Err(SegmentError::BadMagic)
    } else if le_at(s, 8, 4) != VERSION {
        Err(SegmentError::UnsupportedVersion)
    } else {
        Ok(())
    }
}

/// The footer stored in the last bytes of `s`.
pub open spec fn footer_of(s: Seq<u8>) -> SegmentFooter {
    let start = s.len() - FOOTER_LEN;
    SegmentFooter {
        doc_lengths_offset: le_at(s, start, 8) as u64,
        doc_lengths_len: le_at(s, start + 8, 8) as u64,
        dictionary_offset: le_at(s, start + 16, 8) as u64,
        dictionary_len: le_at(s, start + 24, 8) as u64,
        numeric_fields_offset: le_at(s, start + 32, 8) as u64,
        numeric_fields_len: le_at(s, start + 40, 8) as u64,
        term_count: le_at(s, start + 48, 4) as u32,
    }
}

/// What `validate_footer` answers for the segment `s` and its footer `f`.
pub open spec fn footer_check(s: Seq<u8>, f: SegmentFooter) -> Result<(), SegmentError> {
    let start = f.dictionary_offset as usize;
    let len = f.dictionary_len as usize;
    if start + len > usize::MAX {
        Err(SegmentError::DictionaryOffsetOverflow)
    } else if start < HEADER_LEN {
        Err(SegmentError::DictionaryBeforeBody)
    } else if start + len > s.len() - FOOTER_LEN {
        Err(SegmentError::DictionaryOutOfBounds)
    } else if f.term_count == 0 && f.dictionary_len != 4 {
        Err(SegmentError::EmptyDictionaryLength)
    } else {
        Ok(())
    }
}

/// One dictionary entry read from `s` at `off`: the entry and where the
/// next one starts.
pub open spec fn parse_entry(s: Seq<u8>, off: int) -> Result<(TermEntryV, int), SegmentError> {
    if off + 4 > s.len() {
        Err(SegmentError::UnexpectedEof)
    } else {
        let n = le_at(s, off, 4);
        let o1 = off + 4;
        if o1 + n > s.len() {
            Err(SegmentError::UnexpectedEof)
        } else if !valid_utf8(s.subrange(o1, o1 + n)) {
            Err(SegmentError::InvalidUtf8Term)
        } else {
            let o2 = o1 + n;
            if o2 + 22 > s.len() {
                Err(SegmentError::UnexpectedEof)
            } else {
                Ok(
                    (
                        TermEntryV {
                            term: decode_utf8(s.subrange(o1, o1 + n)),
                            xpath: le_at(s, o2, 4) as u32,
                            postings_offset: le_at(s, o2 + 4, 8) as u64,
                            postings_len: le_at(s, o2 + 12, 4) as u32,
                            doc_freq: le_at(s, o2 + 16, 4) as u32,
                            max_weight: le_at(s, o2 + 20, 2) as u16,
                        },
                        o2 + 22,
                    ),
                )
            }
        }
    }
}

/// `n` dictionary entries read from `s` at `off`, and where they end.
pub open spec fn parse_entries(s: Seq<u8>, off: int, n: nat) -> Result<(Seq<TermEntryV>, int), SegmentError>
    decreases n,
{
    if n == 0 {
        Ok((Seq::empty(), off))
    } else {
        match parse_entry(s, off) {
            Err(e) => Err(e),
            Ok((e, next)) => match parse_entries(s, next, (n - 1) as nat) {
                Err(x) => Err(x),
                Ok((rest, end)) => Ok((seq![e] + rest, end)),
            },
        }
    }
}

/// What `read_dictionary` gives for the segment `s` and its footer `f`.
pub open spec fn dictionary_parse(s: Seq<u8>, f: SegmentFooter) -> Result<Seq<TermEntryV>, SegmentError> {
    let start = f.dictionary_offset as usize;
    let len = f.dictionary_len as usize;
    if start + len > usize::MAX {
        Err(SegmentError::DictionaryOffsetOverflow)
    } else if start + len > s.len() {
        Err(SegmentError::DictionaryOutOfBounds)
    } else {
        let d = s.subrange(start as int, start + len);
        if d.len() < 4 {
            Err(SegmentError::UnexpectedEof)
        } else if le_at(d, 0, 4) != f.term_count {
            Err(SegmentError::TermCountMismatch)
        } else {
            match parse_entries(d, 4, le_at(d, 0, 4)) {
                Err(e) => Err(e),
                Ok((es, _)) => Ok(es),
            }
        }
    }
}

/// The bytes as text, when they are UTF-8 (`String::from_utf8`).
#[verifier::external_body]
fn string_from_utf8(bytes: &[u8]) -> (r: Option<String>)
    ensures
        r is Some <==> valid_utf8(bytes@),
        r matches Some(s) ==> s@ == decode_utf8(bytes@),
{
    String::from_utf8(bytes.to_vec()).ok()
}

/// The `u32` stored little-endian at `offset`.
pub fn read_u32_at(bytes: &[u8], offset: usize) -> (r: u32)
    requires
        offset + 4 <= bytes@.len(),
    ensures
        r as nat == le_at(bytes@, offset as int, 4),
{
    proof {
        assert(bytes@.len() == bytes.len());
        crate::disk::bytes::lemma_pow256_values();
        crate::disk::bytes::lemma_le_value_bound(bytes@.subrange(offset as int, offset + 4));
    }
    read_le(bytes, offset, 4) as u32
}

/// The `u64` stored little-endian at `offset`.
pub fn read_u64_at(bytes: &[u8], offset: usize) -> (r: u64)
    requires
        offset + 8 <= bytes@.len(),
    ensures
        r as nat == le_at(bytes@, offset as int, 8),
{
    assert(bytes@.len() == bytes.len());
    read_le(bytes, offset, 8)
}

/// Checks the size, the magic and the version of a segment.
pub fn validate_header(bytes: &[u8]) -> (r: Result<(), SegmentError>)
    ensures
        r == header_check(bytes@),
{
    if bytes.len() < HEADER_LEN + FOOTER_LEN {
        return Err(SegmentError::TooSmall);
    }
    let magic = magic_array();
    let mut i: usize = 0;
    while i < 8
        invariant
            i <= 8,
            bytes@.len() >= HEADER_LEN + FOOTER_LEN,
            magic@ == magic_bytes(),
            forall|k: int| 0 <= k < i ==> bytes@[k] == magic_bytes()[k],
        decreases 8 - i,
    {
        if bytes[i] != magic[i] {
            proof {
                assert(bytes@.subrange(0, 8)[i as int] != magic_bytes()[i as int]);
            }
            return Err(SegmentError::BadMagic);
        }
        i += 1;
    }
    proof {
        assert(bytes@.subrange(0, 8) =~= magic_bytes());
    }
    let version = read_u32_at(bytes, 8);
    if version != VERSION {
        return Err(SegmentError::UnsupportedVersion);
    }
    Ok(())
}

fn magic_array() -> (r: [u8; 8])
    ensures
        r@ == magic_bytes(),
{
    let r = [66u8, 65u8, 78u8, 65u8, 78u8, 65u8, 95u8, 73u8];
    assert(r@ =~= magic_bytes());
    r
}

/// The footer in the last `FOOTER_LEN` bytes.
pub fn read_footer(bytes: &[u8]) -> (r: Result<SegmentFooter, SegmentError>)
    requires
        bytes@.len() >= FOOTER_LEN,
    ensures
        r == Ok::<SegmentFooter, SegmentError>(footer_of(bytes@)),
{
    let start = bytes.len() - FOOTER_LEN;
    let doc_lengths_offset = read_u64_at(bytes, start);
    let doc_lengths_len = read_u64_at(bytes, start + 8);
    let dictionary_offset = read_u64_at(bytes, start + 16);
    let dictionary_len = read_u64_at(bytes, start + 24);
    let numeric_fields_offset = read_u64_at(bytes, start + 32);
    let numeric_fields_len = read_u64_at(bytes, start + 40);
    let term_count = read_u32_at(bytes, start + 48);
    Ok(SegmentFooter {
        doc_lengths_offset,
        doc_lengths_len,
        dictionary_offset,
        dictionary_len,
        numeric_fields_offset,
        numeric_fields_len,
        term_count,
    })
}

/// Checks that the dictionary the footer points at lies inside the body.
pub fn validate_footer(bytes: &[u8], footer: &SegmentFooter) -> (r: Result<(), SegmentError>)
    requires
        bytes@.len() >= FOOTER_LEN,
    ensures
        r == footer_check(bytes@, *footer),
{
    let dictionary_start = footer.dictionary_offset as usize;
    let dictionary_len = footer.dictionary_len as usize;
    let dictionary_end = match dictionary_start.checked_add(dictionary_len) {
        Some(end) => end,
        None => {
            return Err(SegmentError::DictionaryOffsetOverflow);
        },
    };
    if dictionary_start < HEADER_LEN {
        return Err(SegmentError::DictionaryBeforeBody);
    }
    if dictionary_end > bytes.len() - FOOTER_LEN {
        return Err(SegmentError::DictionaryOutOfBounds);
    }
    if footer.term_count == 0 && footer.dictionary_len != 4 {
        return Err(SegmentError::EmptyDictionaryLength);
    }
    Ok(())
}


/// A forward reader over a byte slice.
pub struct Cursor<'a> {
    bytes: &'a [u8],
    offset: usize,
}

impl<'a> Cursor<'a> {
    /// The bytes read from.
    pub closed spec fn data(&self) -> Seq<u8> {
        self.bytes@
    }

    /// How far reading has got.
    pub closed spec fn pos(&self) -> int {
        self.offset as int
    }

    /// The position lies inside the bytes or at their end.
    pub open spec fn wf(&self) -> bool {
        0 <= self.pos() <= self.data().len()
    }

    /// A cursor at the start of `bytes`.
    pub fn new(bytes: &'a [u8]) -> (r: Self)
        ensures
            r.wf(),
            r.data() == bytes@,
            r.pos() == 0,
    {
        Cursor { bytes, offset: 0 }
    }

    /// The next `len` bytes; fails without moving when fewer are left.
    pub fn take(&mut self, len: usize) -> (r: Result<&'a [u8], SegmentError>)
        requires
            old(self).wf(),
        ensures
            final(self).wf(),
            final(self).data() == old(self).data(),
            old(self).pos() + len > old(self).data().len() ==> r == Err::<&'a [u8], SegmentError>(SegmentError::UnexpectedEof)
                && final(self).pos() == old(self).pos(),
            old(self).pos() + len <= old(self).data().len() ==> (r matches Ok(b) && b@ == old(self).data().subrange(
                old(self).pos(),
                old(self).pos() + len,
            ) && final(self).pos() == old(self).pos() + len),
    {
        if len > self.bytes.len() - self.offset {
            return Err(SegmentError::UnexpectedEof);
        }
        let end = self.offset + len;
        let slice = slice_subrange(self.bytes, self.offset, end);
        self.offset = end;
        Ok(slice)
    }

    /// The next `u16`, little-endian.
    pub fn read_u16(&mut self) -> (r: Result<u16, SegmentError>)
        requires
            old(self).wf(),
        ensures
            final(self).wf(),
            final(self).data() == old(self).data(),
            old(self).pos() + 2 > old(self).data().len() ==> r == Err::<u16, SegmentError>(SegmentError::UnexpectedEof)
                && final(self).pos() == old(self).pos(),
            old(self).pos() + 2 <= old(self).data().len() ==> (r matches Ok(v) && v as nat == le_at(old(self).data(), old(self).pos(), 2)
                && final(self).pos() == old(self).pos() + 2),
    {
        let b = self.take(2)?;
        proof {
            crate::disk::bytes::lemma_pow256_values();
            crate::disk::bytes::lemma_le_value_bound(b@);
            assert(b@.subrange(0, 2) =~= b@);
        }
        Ok(read_le(b, 0, 2) as u16)
    }

    /// The next `u32`, little-endian.
    pub fn read_u32(&mut self) -> (r: Result<u32, SegmentError>)
        requires
            old(self).wf(),
        ensures
            final(self).wf(),
            final(self).data() == old(self).data(),
            old(self).pos() + 4 > old(self).data().len() ==> r == Err::<u32, SegmentError>(SegmentError::UnexpectedEof)
                && final(self).pos() == old(self).pos(),
            old(self).pos() + 4 <= old(self).data().len() ==> (r matches Ok(v) && v as nat == le_at(old(self).data(), old(self).pos(), 4)
                && final(self).pos() == old(self).pos() + 4),
    {
        let b = self.take(4)?;
        proof {
            crate::disk::bytes::lemma_pow256_values();
            crate::disk::bytes::lemma_le_value_bound(b@);
            assert(b@.subrange(0, 4) =~= b@);
        }
        Ok(read_le(b, 0, 4) as u32)
    }

    /// The next `u64`, little-endian.
    pub fn read_u64(&mut self) -> (r: Result<u64, SegmentError>)
        requires
            old(self).wf(),
        ensures
            final(self).wf(),
            final(self).data() == old(self).data(),
            old(self).pos() + 8 > old(self).data().len() ==> r == Err::<u64, SegmentError>(SegmentError::UnexpectedEof)
                && final(self).pos() == old(self).pos(),
            old(self).pos() + 8 <= old(self).data().len() ==> (r matches Ok(v) && v as nat == le_at(old(self).data(), old(self).pos(), 8)
                && final(self).pos() == old(self).pos() + 8),
    {
        let b = self.take(8)?;
        proof {
            crate::disk::bytes::lemma_pow256_values();
            crate::disk::bytes::lemma_le_value_bound(b@);
            assert(b@.subrange(0, 8) =~= b@);
        }
        Ok(read_le(b, 0, 8))
    }

    /// The next string: a `u32` byte length, then that many UTF-8 bytes.
    pub fn read_string(&mut self) -> (r: Result<String, SegmentError>)
        requires
            old(self).wf(),
        ensures
            final(self).wf(),
            final(self).data() == old(self).data(),
            ({
                let s = old(self).data();
                let off = old(self).pos();
                if off + 4 > s.len() {
                    r == Err::<String, SegmentError>(SegmentError::UnexpectedEof)
                } else {
                    let n = le_at(s, off, 4);
                    if off + 4 + n > s.len() {
                        r == Err::<String, SegmentError>(SegmentError::UnexpectedEof)
                    } else if !valid_utf8(s.subrange(off + 4, off + 4 + n)) {
                        r == Err::<String, SegmentError>(SegmentError::InvalidUtf8Term)
                    } else {
                        (r matches Ok(t) && t@ == decode_utf8(s.subrange(off + 4, off + 4 + n))
                            && final(self).pos() == off + 4 + n)
                    }
                }
            }),
    {
        let len = self.read_u32()? as usize;
        let bytes = self.take(len)?;
        match string_from_utf8(bytes) {
            Some(s) => Ok(s),
            None => Err(SegmentError::InvalidUtf8Term),
        }
    }
}

/// One dictionary entry at the cursor.
fn read_entry(cursor: &mut Cursor) -> (r: Result<TermEntry, SegmentError>)
    requires
        old(cursor).wf(),
    ensures
        final(cursor).wf(),
        final(cursor).data() == old(cursor).data(),
        match parse_entry(old(cursor).data(), old(cursor).pos()) {
            Ok((e, next)) => (r matches Ok(x) && x@ == e && final(cursor).pos() == next),
            Err(err) => r == Err::<TermEntry, SegmentError>(err),
        },
{
    let ghost s = cursor.data();
    let ghost off = cursor.pos();
    let term = cursor.read_string()?;
    let xpath = cursor.read_u32()?;
    let postings_offset = cursor.read_u64()?;
    let postings_len = cursor.read_u32()?;
    let doc_freq = cursor.read_u32()?;
    let max_weight = cursor.read_u16()?;
    Ok(TermEntry { term, xpath, postings_offset, postings_len, doc_freq, max_weight })
}

/// The dictionary the footer points at, in the flat form the module `format`
/// describes (not the per-field FST form): its term count, checked against
/// the footer's, then the entries, as `dictionary_parse` reads them.
pub fn read_dictionary(bytes: &[u8], footer: &SegmentFooter) -> (r: Result<Vec<TermEntry>, SegmentError>)
    ensures
        match dictionary_parse(bytes@, *footer) {
            Ok(es) => (r matches Ok(v) && entry_views(v@) == es),
            Err(e) => r == Err::<Vec<TermEntry>, SegmentError>(e),
        },
{
    let start = footer.dictionary_offset as usize;
    let len = footer.dictionary_len as usize;
    let end = match start.checked_add(len) {
        Some(end) => end,
        None => {
            return Err(SegmentError::DictionaryOffsetOverflow);
        },
    };
    if end > bytes.len() {
        return Err(SegmentError::DictionaryOutOfBounds);
    }
    let d = slice_subrange(bytes, start, end);
    let ghost ds = d@;
    let mut cursor = Cursor::new(d);
    let count = cursor.read_u32()?;
    if count != footer.term_count {
        return Err(SegmentError::TermCountMismatch);
    }
    let mut entries: Vec<TermEntry> = Vec::new();
    let mut i: u32 = 0;
    let ghost whole = dictionary_parse(bytes@, *footer);
    proof {
        assert(entry_views(entries@) =~= Seq::<TermEntryV>::empty());
        assert(ds == bytes@.subrange(start as int, start + len));
        assert(whole == match parse_entries(ds, 4, count as nat) {
            Err(e) => Err::<Seq<TermEntryV>, SegmentError>(e),
            Ok((es, _)) => Ok(es),
        });
    }
    while i < count
        invariant
            i <= count,
            cursor.wf(),
            cursor.data() == ds,
            ds.len() >= 4,
            count as nat == le_at(ds, 0, 4),
            whole == dictionary_parse(bytes@, *footer),
            whole == match parse_entries(ds, 4, count as nat) {
                Err(e) => Err::<Seq<TermEntryV>, SegmentError>(e),
                Ok((es, _)) => Ok(es),
            },
            parse_entries(ds, 4, count as nat) == match parse_entries(ds, cursor.pos(), (count - i) as nat) {
                Ok((es, e)) => Ok::<(Seq<TermEntryV>, int), SegmentError>((entry_views(entries@) + es, e)),
                Err(x) => Err::<(Seq<TermEntryV>, int), SegmentError>(x),
            },
        decreases count - i,
    {
        let ghost off = cursor.pos();
        let ghost pe = parse_entry(ds, off);
        let ghost rest = parse_entries(ds, off, (count - i) as nat);
        proof {
            assert(rest == match pe {
                Err(e) => Err::<(Seq<TermEntryV>, int), SegmentError>(e),
                Ok((e, next)) => match parse_entries(ds, next, (count - i - 1) as nat) {
                    Err(x) => Err(x),
                    Ok((more, end)) => Ok((seq![e] + more, end)),
                },
            });
        }
        let entry = read_entry(&mut cursor)?;
        let ghost before = entry_views(entries@);
        entries.push(entry);
        proof {
            assert(entry_views(entries@) =~= before.push(entry@));
            match parse_entries(ds, cursor.pos(), (count - i - 1) as nat) {
                Ok((more, e)) => {
                    assert(before + (seq![entry@] + more) =~= before.push(entry@) + more);
                },
                Err(x) => {},
            }
        }
        i += 1;
    }
    proof {
        assert(parse_entries(ds, cursor.pos(), 0) == Ok::<(Seq<TermEntryV>, int), SegmentError>((Seq::<TermEntryV>::empty(), cursor.pos())));
        assert(entry_views(entries@) + Seq::<TermEntryV>::empty() =~= entry_views(entries@));
    }
    Ok(entries)
}

} // verus!

verus! {

/// The footer the writer puts at the end of a segment is the footer the reader finds there,
/// whatever stands before it.
pub proof fn lemma_footer_roundtrip(body: Seq<u8>, f: SegmentFooter)
    ensures
        footer_of(body + crate::disk::writer::footer_bytes(f)) == f,
{
    crate::disk::bytes::lemma_pow256_values();
    let a = crate::disk::bytes::le_bytes(f.doc_lengths_offset as nat, 8);
    let b = crate::disk::bytes::le_bytes(f.doc_lengths_len as nat, 8);
    let c = crate::disk::bytes::le_bytes(f.dictionary_offset as nat, 8);
    let d = crate::disk::bytes::le_bytes(f.dictionary_len as nat, 8);
    let e = crate::disk::bytes::le_bytes(f.numeric_fields_offset as nat, 8);
    let g = crate::disk::bytes::le_bytes(f.numeric_fields_len as nat, 8);
    let h = crate::disk::bytes::le_bytes(f.term_count as nat, 4);
    crate::disk::bytes::lemma_le_roundtrip(f.doc_lengths_offset as nat, 8);
    crate::disk::bytes::lemma_le_roundtrip(f.doc_lengths_len as nat, 8);
    crate::disk::bytes::lemma_le_roundtrip(f.dictionary_offset as nat, 8);
    crate::disk::bytes::lemma_le_roundtrip(f.dictionary_len as nat, 8);
    crate::disk::bytes::lemma_le_roundtrip(f.numeric_fields_offset as nat, 8);
    crate::disk::bytes::lemma_le_roundtrip(f.numeric_fields_len as nat, 8);
    crate::disk::bytes::lemma_le_roundtrip(f.term_count as nat, 4);
    let s = body + crate::disk::writer::footer_bytes(f);
    let st = body.len() as int;
    assert(s =~= body + a + b + c + d + e + g + h);
    assert(s.len() == st + 52);
    assert(s.subrange(st, st + 8) =~= a);
    assert(s.subrange(st + 8, st + 16) =~= b);
    assert(s.subrange(st + 16, st + 24) =~= c);
    assert(s.subrange(st + 24, st + 32) =~= d);
    assert(s.subrange(st + 32, st + 40) =~= e);
    assert(s.subrange(st + 40, st + 48) =~= g);
    assert(s.subrange(st + 48, st + 52) =~= h);
}

/// A segment that starts with the writer's header passes the header check, once it is long
/// enough to hold a footer too.
pub proof fn lemma_header_accepted(rest: Seq<u8>)
    requires
        HEADER_LEN + rest.len() >= HEADER_LEN + FOOTER_LEN,
    ensures
        header_check(crate::disk::writer::header_bytes() + rest) == Ok::<(), SegmentError>(()),
{
    crate::disk::bytes::lemma_pow256_values();
    crate::disk::bytes::lemma_le_roundtrip(VERSION as nat, 4);
    let v = crate::disk::bytes::le_bytes(VERSION as nat, 4);
    let s = crate::disk::writer::header_bytes() + rest;
    assert(s =~= magic_bytes() + v + rest);
    assert(s.subrange(0, 8) =~= magic_bytes());
    assert(s.subrange(8, 12) =~= v);
}

} // verus!

verus! {

/// The entries `es` written front to back.
pub open spec fn entries_forward(es: Seq<TermEntry>) -> Seq<u8>
    decreases es.len(),
{
    if es.len() == 0 {
        Seq::empty()
    } else {
        crate::disk::writer::entry_bytes(es[0]) + entries_forward(es.drop_first())
    }
}

proof fn lemma_entries_forward_last(es: Seq<TermEntry>)
    requires
        es.len() >= 1,
    ensures
        entries_forward(es) == entries_forward(es.drop_last()) + crate::disk::writer::entry_bytes(es.last()),
    decreases es.len(),
{
    let t = es.drop_first();
    if es.len() == 1 {
        assert(t =~= Seq::<TermEntry>::empty());
        assert(es.drop_last() =~= Seq::<TermEntry>::empty());
        assert(entries_forward(t) == Seq::<u8>::empty());
        assert(es.last() == es[0]);
        assert(entries_forward(es) =~= Seq::<u8>::empty() + crate::disk::writer::entry_bytes(es.last()));
    } else {
        lemma_entries_forward_last(t);
        assert(es.drop_last().drop_first() =~= t.drop_last());
        assert(es.drop_last()[0] == es[0]);
        assert(t.last() == es.last());
        assert(entries_forward(es) =~= entries_forward(es.drop_last()) + crate::disk::writer::entry_bytes(es.last()));
    }
}

/// The writer's dictionary bytes are the forward ones.
proof fn lemma_entries_forward(es: Seq<TermEntry>)
    ensures
        crate::disk::writer::entries_bytes(es) == entries_forward(es),
    decreases es.len(),
{
    if es.len() >= 1 {
        lemma_entries_forward(es.drop_last());
        lemma_entries_forward_last(es);
    }
}

/// An entry whose term's UTF-8 length fits the `u32` it is written as.
pub open spec fn entry_writable(e: TermEntry) -> bool {
    vstd::utf8::encode_utf8(e.term@).len() <= u32::MAX
}

proof fn lemma_parse_entry_back(e: TermEntry, prefix: Seq<u8>, rest: Seq<u8>)
    requires
        entry_writable(e),
    ensures
        parse_entry(prefix + crate::disk::writer::entry_bytes(e) + rest, prefix.len() as int) == Ok::<
            (TermEntryV, int),
            SegmentError,
        >((e@, (prefix.len() + crate::disk::writer::entry_bytes(e).len()) as int)),
{
    broadcast use vstd::utf8::encode_utf8_valid_utf8, vstd::utf8::encode_utf8_decode_utf8;

    crate::disk::bytes::lemma_pow256_values();
    let u = vstd::utf8::encode_utf8(e.term@);
    let n = u.len();
    let l = crate::disk::bytes::le_bytes((n as u32) as nat, 4);
    let x = crate::disk::bytes::le_bytes(e.xpath as nat, 4);
    let po = crate::disk::bytes::le_bytes(e.postings_offset as nat, 8);
    let pl = crate::disk::bytes::le_bytes(e.postings_len as nat, 4);
    let df = crate::disk::bytes::le_bytes(e.doc_freq as nat, 4);
    let mw = crate::disk::bytes::le_bytes(e.max_weight as nat, 2);
    crate::disk::bytes::lemma_le_roundtrip((n as u32) as nat, 4);
    crate::disk::bytes::lemma_le_roundtrip(e.xpath as nat, 4);
    crate::disk::bytes::lemma_le_roundtrip(e.postings_offset as nat, 8);
    crate::disk::bytes::lemma_le_roundtrip(e.postings_len as nat, 4);
    crate::disk::bytes::lemma_le_roundtrip(e.doc_freq as nat, 4);
    crate::disk::bytes::lemma_le_roundtrip(e.max_weight as nat, 2);
    let s = prefix + crate::disk::writer::entry_bytes(e) + rest;
    let off = prefix.len() as int;
    assert(s =~= prefix + l + u + x + po + pl + df + mw + rest);
    assert(s.subrange(off, off + 4) =~= l);
    let o1 = off + 4;
    assert(s.subrange(o1, o1 + n) =~= u);
    let o2 = o1 + n;
    assert(s.subrange(o2, o2 + 4) =~= x);
    assert(s.subrange(o2 + 4, o2 + 12) =~= po);
    assert(s.subrange(o2 + 12, o2 + 16) =~= pl);
    assert(s.subrange(o2 + 16, o2 + 20) =~= df);
    assert(s.subrange(o2 + 20, o2 + 22) =~= mw);
}

proof fn lemma_parse_entries_forward(es: Seq<TermEntry>, prefix: Seq<u8>, rest: Seq<u8>)
    requires
        forall|i: int| 0 <= i < es.len() ==> entry_writable(#[trigger] es[i]),
    ensures
        parse_entries(prefix + entries_forward(es) + rest, prefix.len() as int, es.len()) == Ok::<
            (Seq<TermEntryV>, int),
            SegmentError,
        >((entry_views(es), (prefix.len() + entries_forward(es).len()) as int)),
    decreases es.len(),
{
    let s = prefix + entries_forward(es) + rest;
    if es.len() == 0 {
        assert(entry_views(es) =~= Seq::<TermEntryV>::empty());
    } else {
        let t = es.drop_first();
        let eb = crate::disk::writer::entry_bytes(es[0]);
        assert(s =~= prefix + eb + (entries_forward(t) + rest));
        lemma_parse_entry_back(es[0], prefix, entries_forward(t) + rest);
        let p1 = prefix + eb;
        assert(s =~= p1 + entries_forward(t) + rest);
        assert forall|i: int| 0 <= i < t.len() implies entry_writable(#[trigger] t[i]) by {
            assert(t[i] == es[i + 1]);
        }
        lemma_parse_entries_forward(t, p1, rest);
        assert(seq![es[0]@] + entry_views(t) =~= entry_views(es));
    }
}

/// The dictionary the writer lays out, a `u32` count and then the entries, is read back entry
/// for entry, wherever in the segment it stands.
pub proof fn lemma_dictionary_roundtrip(before: Seq<u8>, es: Seq<TermEntry>, after: Seq<u8>, f: SegmentFooter)
    requires
        es.len() <= u32::MAX,
        forall|i: int| 0 <= i < es.len() ==> entry_writable(#[trigger] es[i]),
        f.term_count == es.len(),
        f.dictionary_offset == before.len(),
        f.dictionary_len == 4 + crate::disk::writer::entries_bytes(es).len(),
        before.len() + 4 + crate::disk::writer::entries_bytes(es).len() <= usize::MAX,
    ensures
        dictionary_parse(
            before + crate::disk::bytes::le_bytes(es.len(), 4) + crate::disk::writer::entries_bytes(es) + after,
            f,
        ) == Ok::<Seq<TermEntryV>, SegmentError>(entry_views(es)),
{
    crate::disk::bytes::lemma_pow256_values();
    crate::disk::bytes::lemma_le_roundtrip(es.len(), 4);
    lemma_entries_forward(es);
    let c = crate::disk::bytes::le_bytes(es.len(), 4);
    let body = crate::disk::writer::entries_bytes(es);
    let s = before + c + body + after;
    let start = before.len() as int;
    let d = s.subrange(start, start + 4 + body.len());
    assert(d =~= c + body);
    assert(d.subrange(0, 4) =~= c);
    lemma_parse_entries_forward(es, c, Seq::empty());
    assert(c + entries_forward(es) + Seq::<u8>::empty() =~= d);
}

} // verus!
