use corelamo::fuzzy::{candidates_within_one, default_max_edits, split_prefix, FuzzyExpansion};

#[test]
fn max_edits_grow_with_length() {
    assert_eq!(default_max_edits(""), 0);
    assert_eq!(default_max_edits("abc"), 0);
    assert_eq!(default_max_edits("abcd"), 1);
    assert_eq!(default_max_edits("abcdef"), 1);
    assert_eq!(default_max_edits("abcdefg"), 2);
    assert_eq!(default_max_edits("ééé"), 0);
}

#[test]
fn split_prefix_counts_characters() {
    assert_eq!(split_prefix("search", 1), ("s", "earch"));
    assert_eq!(split_prefix("search", 0), ("", "search"));
    assert_eq!(split_prefix("ab", 5), ("ab", ""));
    assert_eq!(split_prefix("éa", 1), ("é", "a"));
}

#[test]
fn candidates_cover_every_single_edit() {
    let c = candidates_within_one("ab");
    // 2 deletions, 3 places x 26 insertions, 2 x 26 substitutions, 1 swap
    assert_eq!(c.len(), 2 + 3 * 26 + 2 * 26 + 1);
    assert_eq!(&c[0], "b");
    assert_eq!(&c[1], "a");
    assert_eq!(&c[2], "aab");
    assert_eq!(&c[3], "ab");
    assert_eq!(&c[4], "bab");
    assert_eq!(c.last().unwrap(), "ba");
    assert!(c.contains(&"abz".to_string()));
    assert!(c.contains(&"xb".to_string()));
}

#[test]
fn candidates_of_empty_term_are_letters() {
    let c = candidates_within_one("");
    assert_eq!(c.len(), 26);
    assert_eq!(c[0], "a");
    assert_eq!(c[25], "z");
}

#[test]
fn expansion_keeps_its_parts() {
    let e = FuzzyExpansion::new("term", 1, 7);
    assert_eq!((e.term.as_str(), e.edits, e.doc_freq), ("term", 1, 7));
}
