use corelamo::posting::{DeleteSet, Posting, PostingList};

#[test]
fn filters_deleted_docs() {
    let list = PostingList::from_items(vec![
        Posting::new(1, vec![0]),
        Posting::new(2, vec![0]),
        Posting::new(3, vec![0]),
    ]);

    let mut deleted = DeleteSet::new();
    deleted.delete(2);

    let filtered = deleted.filter(&list);
    let ids: Vec<_> = filtered.items().iter().map(|p| p.doc_id).collect();

    assert_eq!(ids, vec![1, 3]);
}

#[test]
fn nothing_deleted_keeps_everything() {
    let list = PostingList::from_items(vec![Posting::new(5, vec![1]), Posting::new(9, vec![2])]);
    let deleted = DeleteSet::new();
    assert!(deleted.is_empty());
    let ids: Vec<_> = deleted.filter(&list).items().iter().map(|p| p.doc_id).collect();
    assert_eq!(ids, vec![5, 9]);
}

#[test]
fn deleted_set_membership() {
    let mut deleted = DeleteSet::new();
    deleted.delete(7);
    deleted.delete(7);
    assert!(deleted.is_deleted(7));
    assert!(deleted.contains(7));
    assert!(!deleted.is_deleted(8));
}
