use corelamo::analyzer::{canonical_query, Normalizer, RawToken, SimpleTokenizer};

#[test]
fn simple_tokenizer_cuts_alphanumeric_runs() {
    let t = SimpleTokenizer.tokenize("Hello, wörld 42!");
    let texts: Vec<&str> = t.iter().map(|t| t.text.as_str()).collect();
    assert_eq!(texts, vec!["Hello", "wörld", "42"]);
    assert_eq!(t.iter().map(|t| t.position).collect::<Vec<_>>(), vec![0, 1, 2]);
    assert_eq!((t[0].start_byte, t[0].end_byte), (0, 5));
    assert_eq!((t[1].start_byte, t[1].end_byte), (7, 13));
    assert_eq!((t[2].start_byte, t[2].end_byte), (14, 16));
}

#[test]
fn simple_tokenizer_edge_cases() {
    assert!(SimpleTokenizer.tokenize("").is_empty());
    assert!(SimpleTokenizer.tokenize(" -- ").is_empty());
    let t = SimpleTokenizer.tokenize("end");
    assert_eq!((t[0].start_byte, t[0].end_byte), (0, 3));
}

#[test]
fn normalizer_lowercases_and_keeps_place() {
    let raw = RawToken { text: "HeLLo".to_string(), position: 3, start_byte: 4, end_byte: 9 };
    let t = Normalizer.normalize(raw);
    assert_eq!(t.text, "hello");
    assert_eq!((t.position, t.start_byte, t.end_byte), (3, 4, 9));
}

#[test]
fn canonical_query_drops_punctuation() {
    assert_eq!(canonical_query("spider-man rocks!", &['_']), "spiderman rocks");
    assert_eq!(canonical_query("a_b c", &['_']), "a_b c");
    assert_eq!(canonical_query("a_b", &[]), "ab");
}
