use corelamo::analyzer::{expand_word_delimiters, WordDelimiterTokenizer};

fn syms(s: &[char]) -> Vec<char> {
    s.to_vec()
}

#[test]
fn literal_symbol_stays_whole() {
    assert_eq!(
        expand_word_delimiters("spider_man", &syms(&['_'])),
        vec!["spider_man".to_string()]
    );
}

#[test]
fn hyphen_splits_catenates_preserves() {
    assert_eq!(
        expand_word_delimiters("spider-man", &syms(&['_'])),
        vec!["spider-man", "spider", "man", "spiderman"]
    );
}

#[test]
fn colon_splits_catenates_preserves() {
    assert_eq!(
        expand_word_delimiters("Ca:P", &syms(&['_'])),
        vec!["Ca:P", "Ca", "P", "CaP"]
    );
}

#[test]
fn no_delimiter_unchanged() {
    assert_eq!(
        expand_word_delimiters("spiderman", &syms(&['_'])),
        vec!["spiderman".to_string()]
    );
}

#[test]
fn empty_pieces_are_dropped() {
    assert_eq!(
        expand_word_delimiters("--a--b--", &syms(&[])),
        vec!["--a--b--", "a", "b", "ab"]
    );
}

#[test]
fn only_delimiters_gives_empty_catenation() {
    assert_eq!(expand_word_delimiters("--", &syms(&[])), vec!["--", ""]);
}

#[test]
fn underscore_splits_without_literal_symbols() {
    assert_eq!(
        expand_word_delimiters("a_b", &syms(&[])),
        vec!["a_b", "a", "b", "ab"]
    );
}

#[test]
fn tokenizer_expands_each_chunk_with_its_byte_range() {
    let t = WordDelimiterTokenizer::new(vec!['_']);
    let tokens = t.tokens("spider-man  x_y");
    let texts: Vec<&str> = tokens.iter().map(|t| t.text.as_str()).collect();
    assert_eq!(texts, vec!["spider-man", "spider", "man", "spiderman", "x_y"]);
    let positions: Vec<usize> = tokens.iter().map(|t| t.position).collect();
    assert_eq!(positions, vec![0, 1, 2, 3, 4]);
    assert_eq!((tokens[0].offset_from, tokens[0].offset_to), (0, 10));
    assert_eq!((tokens[3].offset_from, tokens[3].offset_to), (0, 10));
    assert_eq!((tokens[4].offset_from, tokens[4].offset_to), (12, 15));
}

#[test]
fn tokenizer_counts_bytes_not_characters() {
    let t = WordDelimiterTokenizer::new(vec![]);
    let tokens = t.tokens("é ab");
    assert_eq!(tokens.len(), 2);
    assert_eq!((tokens[0].offset_from, tokens[0].offset_to), (0, 2));
    assert_eq!((tokens[1].offset_from, tokens[1].offset_to), (3, 5));
}

#[test]
fn tokenizer_of_blank_text_is_empty() {
    let t = WordDelimiterTokenizer::new(vec!['_']);
    assert!(t.tokens("   \t\n").is_empty());
    assert!(t.tokens("").is_empty());
}
