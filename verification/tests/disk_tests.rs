use corelamo::disk::segment_writer::write_segment_bytes;
use corelamo::numeric::columns::NumericColumns;
use corelamo::numeric::points::NumericValue;
use corelamo::mem::MemIndex;
use corelamo::posting::deleted::DeleteSet;
use corelamo::snapshot::IndexSnapshot;
use corelamo::disk::codec::{push_var_u64, read_var_u16, read_var_u32, read_var_u64};
use corelamo::disk::error::SegmentError;
use corelamo::disk::format::{SegmentFooter, TermEntry};
use corelamo::disk::postings::{postings_decodable, read_posting_list};
use corelamo::disk::reader::{read_dictionary, read_footer, validate_footer, validate_header};
use corelamo::disk::segment::{text_before, DiskSegment};
use corelamo::disk::writer::{encode_posting_list, write_dictionary, write_footer, write_header, write_u32};
use corelamo::posting::item::Posting;
use corelamo::posting::list::PostingList;

fn list(postings: Vec<(u64, Vec<u32>, u16)>) -> PostingList {
    PostingList::from_items(
        postings.into_iter().map(|(d, p, w)| Posting::with_weight(d, p, w)).collect(),
    )
}

fn shape(l: &PostingList) -> Vec<(u64, Vec<u32>, u16)> {
    l.items().iter().map(|p| (p.doc_id, p.positions.clone(), p.weight)).collect()
}

/// A segment with the terms, sorted by (xpath, term), and their postings.
fn segment_bytes(terms: &[(&str, u32, PostingList)]) -> Vec<u8> {
    let mut out = Vec::new();
    write_header(&mut out);
    let mut entries = Vec::new();
    for (term, xpath, postings) in terms {
        let offset = out.len() as u64;
        let mut blob = Vec::new();
        encode_posting_list(&mut blob, postings);
        out.extend_from_slice(&blob);
        entries.push(TermEntry {
            term: term.to_string(),
            xpath: *xpath,
            postings_offset: offset,
            postings_len: blob.len() as u32,
            doc_freq: postings.len() as u32,
            max_weight: postings.max_weight(),
        });
    }
    let doc_lengths_offset = out.len() as u64;
    write_u32(&mut out, 0);
    let dictionary_offset = out.len() as u64;
    write_dictionary(&mut out, &entries);
    let dictionary_len = out.len() as u64 - dictionary_offset;
    let numeric_fields_offset = out.len() as u64;
    write_u32(&mut out, 0);
    let footer = SegmentFooter {
        doc_lengths_offset,
        doc_lengths_len: 4,
        dictionary_offset,
        dictionary_len,
        numeric_fields_offset,
        numeric_fields_len: 4,
        term_count: entries.len() as u32,
    };
    write_footer(&mut out, &footer);
    out
}

fn sample_segment() -> DiskSegment {
    let bytes = segment_bytes(&[
        ("data", 0, list(vec![(7, vec![1], 3)])),
        ("database", 0, list(vec![(1, vec![1], 10), (2, vec![0], 20), (3, vec![1], 10)])),
        ("dataset", 0, list(vec![(3, vec![0], 20)])),
        ("engine", 0, list(vec![(1, vec![2], 10)])),
        ("database", 1, list(vec![(2, vec![0, 4], 5)])),
    ]);
    DiskSegment::open(bytes).unwrap()
}

#[test]
fn varints_read_back_what_was_pushed() {
    let values = [0u64, 1, 127, 128, 300, 16_383, 16_384, u32::MAX as u64, u64::MAX];
    let mut out = Vec::new();
    for v in values {
        push_var_u64(&mut out, v);
    }
    assert_eq!(out[0], 0);
    assert_eq!(&out[3..5], &[0x80, 0x01]);
    let mut offset = 0usize;
    for v in values {
        assert_eq!(read_var_u64(&out, &mut offset).unwrap(), v);
    }
    assert_eq!(offset, out.len());
}

#[test]
fn varint_errors() {
    let mut offset = 0usize;
    assert_eq!(read_var_u64(&[0x80, 0x80], &mut offset), Err(SegmentError::UnexpectedEof));
    let mut offset = 0usize;
    assert_eq!(read_var_u64(&[0xff; 11], &mut offset), Err(SegmentError::VarintTooLarge));
    let mut big = Vec::new();
    push_var_u64(&mut big, 1 << 40);
    let mut offset = 0usize;
    assert_eq!(read_var_u32(&big, &mut offset), Err(SegmentError::DoesNotFitU32));
    let mut offset = 0usize;
    assert_eq!(read_var_u16(&[0x80, 0x80, 0x04], &mut offset), Err(SegmentError::DoesNotFitU16));
}

#[test]
fn posting_lists_round_trip_with_positions_and_weights() {
    let original = list(vec![(1, vec![0, 3, 3, 9], 10), (5, vec![2], 20), (1_000_000, vec![], 1)]);
    let mut bytes = Vec::new();
    encode_posting_list(&mut bytes, &original);
    assert!(postings_decodable(&bytes, 3));
    let back = read_posting_list(&bytes, 3).unwrap();
    assert_eq!(shape(&back), shape(&original));
    assert_eq!(back.max_weight(), 20);
}

#[test]
fn posting_bytes_are_delta_varints() {
    let l = list(vec![(3, vec![1, 4], 2), (10, vec![0], 1)]);
    let mut bytes = Vec::new();
    encode_posting_list(&mut bytes, &l);
    assert_eq!(bytes, vec![3, 2, 2, 1, 3, 7, 1, 1, 0]);
}

#[test]
fn truncated_postings_are_an_error() {
    let l = list(vec![(3, vec![1, 4], 2)]);
    let mut bytes = Vec::new();
    encode_posting_list(&mut bytes, &l);
    bytes.pop();
    assert_eq!(read_posting_list(&bytes, 1).err(), Some(SegmentError::UnexpectedEof));
    assert!(postings_decodable(&bytes, 1));
}

#[test]
fn overflowing_doc_ids_are_detected() {
    let mut bytes = Vec::new();
    for doc in [u64::MAX, 1] {
        push_var_u64(&mut bytes, doc);
        bytes.push(1);
        bytes.push(0);
    }
    assert!(!postings_decodable(&bytes, 2));
    assert!(postings_decodable(&bytes, 1));
}

#[test]
fn header_and_footer_are_read_back() {
    let footer = SegmentFooter {
        doc_lengths_offset: 12,
        doc_lengths_len: 4,
        dictionary_offset: 16,
        dictionary_len: 4,
        numeric_fields_offset: 20,
        numeric_fields_len: 4,
        term_count: 0,
    };
    let mut bytes = Vec::new();
    write_header(&mut bytes);
    assert_eq!(&bytes[0..8], b"BANANA_I");
    for _ in 0..3 {
        write_u32(&mut bytes, 0);
    }
    write_footer(&mut bytes, &footer);
    assert_eq!(validate_header(&bytes), Ok(()));
    let read = read_footer(&bytes).unwrap();
    assert_eq!(read, footer);
    assert_eq!(validate_footer(&bytes, &read), Ok(()));
    assert!(read_dictionary(&bytes, &read).unwrap().is_empty());
}

#[test]
fn bad_headers_and_footers_are_refused() {
    assert_eq!(validate_header(&[0u8; 10]), Err(SegmentError::TooSmall));
    let mut bytes = vec![0u8; 64];
    assert_eq!(validate_header(&bytes), Err(SegmentError::BadMagic));
    bytes[0..8].copy_from_slice(b"BANANA_I");
    bytes[8] = 8;
    assert_eq!(validate_header(&bytes), Err(SegmentError::UnsupportedVersion));
    bytes[8] = 9;
    assert_eq!(validate_header(&bytes), Ok(()));
    let mut footer = read_footer(&bytes).unwrap();
    assert_eq!(validate_footer(&bytes, &footer), Err(SegmentError::DictionaryBeforeBody));
    footer.dictionary_offset = 12;
    footer.dictionary_len = 100;
    assert_eq!(validate_footer(&bytes, &footer), Err(SegmentError::DictionaryOutOfBounds));
    footer.dictionary_len = 0;
    assert_eq!(validate_footer(&bytes, &footer), Err(SegmentError::EmptyDictionaryLength));
    footer.dictionary_offset = u64::MAX;
    footer.dictionary_len = 2;
    assert_eq!(validate_footer(&bytes, &footer), Err(SegmentError::DictionaryOffsetOverflow));
}

#[test]
fn dictionary_round_trips_and_checks_its_count() {
    let bytes = segment_bytes(&[("ünï", 3, list(vec![(1, vec![0], 1)])), ("zeta", 3, list(vec![]))]);
    let footer = read_footer(&bytes).unwrap();
    let entries = read_dictionary(&bytes, &footer).unwrap();
    assert_eq!(entries.len(), 2);
    assert_eq!(entries[0].term, "ünï");
    assert_eq!(entries[0].xpath, 3);
    assert_eq!(entries[0].doc_freq, 1);
    assert_eq!(entries[1].term, "zeta");
    assert_eq!(entries[1].doc_freq, 0);
    let mut wrong = footer.clone();
    wrong.term_count = 5;
    assert_eq!(read_dictionary(&bytes, &wrong).err(), Some(SegmentError::TermCountMismatch));
}

#[test]
fn segment_lookup_finds_written_postings() {
    let disk = sample_segment();
    assert!(disk.check_decodable());
    assert_eq!(disk.dictionary().len(), 5);
    let result = disk.lookup("database", 0);
    let ids: Vec<u64> = result.items().iter().map(|p| p.doc_id).collect();
    assert_eq!(ids, vec![1, 2, 3]);
    assert_eq!(shape(&result)[1], (2, vec![0], 20));
    assert_eq!(result.max_weight(), 20);
}

#[test]
fn segment_lookup_respects_xpath() {
    let disk = sample_segment();
    let ids_0: Vec<u64> = disk.lookup("database", 0).items().iter().map(|p| p.doc_id).collect();
    let ids_1: Vec<u64> = disk.lookup("database", 1).items().iter().map(|p| p.doc_id).collect();
    assert_eq!(ids_0, vec![1, 2, 3]);
    assert_eq!(ids_1, vec![2]);
    assert_eq!(shape(&disk.lookup("database", 1)), vec![(2, vec![0, 4], 5)]);
}

#[test]
fn segment_missing_term_is_empty() {
    let disk = sample_segment();
    assert!(disk.lookup("missing", 0).is_empty());
    assert!(disk.lookup("engine", 1).is_empty());
    assert!(disk.lookup("", 0).is_empty());
}

#[test]
fn segment_prefix_lookup_merges_the_run() {
    let disk = sample_segment();
    let merged = disk.lookup_prefix("data", 0);
    let ids: Vec<u64> = merged.items().iter().map(|p| p.doc_id).collect();
    assert_eq!(ids, vec![1, 2, 3, 7]);
    assert!(disk.lookup_prefix("datab", 1).len() == 1);
    assert!(disk.lookup_prefix("x", 0).is_empty());
    let all_0: Vec<u64> = disk.lookup_prefix("", 0).items().iter().map(|p| p.doc_id).collect();
    assert_eq!(all_0, vec![1, 2, 3, 7]);
}

#[test]
fn opening_checks_the_bytes() {
    assert_eq!(DiskSegment::open(vec![1, 2, 3]).err(), Some(SegmentError::TooSmall));
    let mut bytes = segment_bytes(&[("a", 0, list(vec![(1, vec![0], 1)]))]);
    bytes[0] = b'X';
    assert_eq!(DiskSegment::open(bytes).err(), Some(SegmentError::BadMagic));
}

#[test]
fn texts_order_by_characters() {
    assert!(text_before("data", "database"));
    assert!(text_before("database", "dataset"));
    assert!(!text_before("dataset", "database"));
    assert!(!text_before("same", "same"));
    assert!(text_before("", "a"));
    assert!(text_before("Z", "a"));
}

#[test]
fn snapshot_reads_every_part_and_drops_deleted_documents() {
    let seg = sample_segment();
    assert!(seg.check_decodable());
    let mut mem = MemIndex::new();
    mem.add_token("database", 0, 9, 4);
    mem.add_token("dataset", 0, 8, 1);
    let mut deleted = DeleteSet::new();
    deleted.delete(2);
    let snap = IndexSnapshot::new(mem, vec![seg], deleted);
    let r = snap.lookup("database", 0);
    assert_eq!(r.items().iter().map(|p| p.doc_id).collect::<Vec<_>>(), vec![1, 3, 9]);
    assert_eq!(r.max_weight(), 10);
    let r = snap.lookup_prefix("data", 0);
    assert_eq!(r.items().iter().map(|p| p.doc_id).collect::<Vec<_>>(), vec![1, 3, 7, 8, 9]);
    assert!(snap.lookup("missing", 0).items().is_empty());
}

#[test]
fn a_written_segment_opens_and_reads_back() {
    let terms = vec![
        ("alpha".to_string(), 0u32, list(vec![(1, vec![0, 3], 2), (4, vec![1], 7)])),
        ("beta".to_string(), 0u32, list(vec![(2, vec![5], 1)])),
        ("alpha".to_string(), 1u32, list(vec![(9, vec![0], 4)])),
    ];
    let mut cols = NumericColumns::new();
    cols.insert(3, NumericValue::Int(-2), 1);
    cols.insert(3, NumericValue::Int(5), 4);
    let bytes = write_segment_bytes(&terms, &[(1, 0, 2), (4, 0, 1)], &cols);
    assert_eq!(&bytes[0..8], b"BANANA_I");
    let seg = DiskSegment::open(bytes).unwrap();
    assert!(seg.check_decodable());
    assert_eq!(seg.dictionary().len(), 3);
    assert_eq!(shape(&seg.lookup("alpha", 0)), vec![(1, vec![0, 3], 2), (4, vec![1], 7)]);
    assert_eq!(shape(&seg.lookup("beta", 0)), vec![(2, vec![5], 1)]);
    assert_eq!(shape(&seg.lookup("alpha", 1)), vec![(9, vec![0], 4)]);
    assert!(seg.lookup("gamma", 0).items().is_empty());
}
