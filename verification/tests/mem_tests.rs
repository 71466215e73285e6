use corelamo::analyzer::Token;
use corelamo::mem::MemIndex;

fn tok(text: &str, position: u32) -> Token {
    Token { text: text.to_string(), position, start_byte: 0, end_byte: 0 }
}

#[test]
fn tokens_accumulate_positions() {
    let mut m = MemIndex::new();
    m.add_token("rust", 1, 10, 0);
    m.add_token("rust", 1, 10, 4);
    m.add_token("rust", 1, 3, 1);
    m.add_token("rust", 2, 10, 0);
    assert_eq!(m.term_count(), 2);
    let l = m.lookup("rust", 1).unwrap();
    let docs: Vec<u64> = l.items().iter().map(|p| p.doc_id).collect();
    assert_eq!(docs, vec![3, 10]);
    assert_eq!(l.items()[1].positions, vec![0, 4]);
    assert!(m.lookup("rust", 3).is_none());
    assert!(m.lookup_or_empty("go", 1).is_empty());
    assert_eq!(m.lookup_or_empty("rust", 2).len(), 1);
}

#[test]
fn lookups_over_paths_and_prefixes() {
    let mut m = MemIndex::new();
    m.add_token("data", 1, 1, 0);
    m.add_token("database", 1, 2, 0);
    m.add_token("data", 2, 3, 0);
    m.add_token("other", 1, 4, 0);
    let all: Vec<u64> = m.lookup_all_xpaths("data").items().iter().map(|p| p.doc_id).collect();
    assert_eq!(all, vec![1, 3]);
    let pre: Vec<u64> = m.lookup_prefix("dat", 1).items().iter().map(|p| p.doc_id).collect();
    assert_eq!(pre, vec![1, 2]);
    assert!(m.lookup_prefix("zzz", 1).is_empty());
}

#[test]
fn weighted_parts_follow_the_policy_weights() {
    let mut m = MemIndex::new();
    let tokens = vec![tok("a", 0), tok("b", 1), tok("a", 2), tok("a", 3)];
    m.add_document_weighted(7, 1, &tokens, 10, 12);
    let a = m.lookup("a", 1).unwrap();
    assert_eq!(a.items()[0].positions, vec![0, 2, 3]);
    assert_eq!(a.items()[0].weight, 12); // 10 + 3 capped at 12
    let b = m.lookup("b", 1).unwrap();
    assert_eq!(b.items()[0].weight, 11); // 10 + 1
    assert_eq!(m.doc_len(7, 1), Some(4));
    assert_eq!(m.doc_len(7, 2), None);
    assert_eq!(m.doc_count(1), 1);
    assert_eq!(m.total_doc_len(1), 4);
    m.add_document_weighted(8, 1, &[], 0, 100);
    assert_eq!(m.doc_count(1), 2);
    assert_eq!(m.total_doc_len(1), 4);
    assert_eq!(m.doc_count(9), 0);
}

#[test]
fn weight_saturates_and_respects_an_inverted_range() {
    let mut m = MemIndex::new();
    m.add_document_weighted(1, 1, &[tok("x", 0)], u16::MAX, u16::MAX);
    assert_eq!(m.lookup("x", 1).unwrap().items()[0].weight, u16::MAX);
    m.add_document_weighted(2, 2, &[tok("y", 0)], 50, 5);
    assert_eq!(m.lookup("y", 2).unwrap().items()[0].weight, 5);
}
