use std::time::Duration;

use corelamo::auth::token::TOKEN_LIFETIME_NANOS;
use corelamo::auth::{Permission, PolicyStore, TokenStore};
use corelamo::backup::{BackupPhase, BackupProgress};
use corelamo::database::DatabaseMetrics;
use corelamo::index_worker::{index_step, IndexEvent, IndexWorkerState, IndexingStats};
use corelamo::posting::{Posting, PostingList};

fn metrics(search: u64, search_ms: u64, indexing: u64, indexing_ms: u64) -> DatabaseMetrics {
    DatabaseMetrics {
        search_requests: search,
        search_errors: 0,
        search_total_time: Duration::from_millis(search_ms),
        indexing_requests: indexing,
        indexing_errors: 0,
        indexing_total_time: Duration::from_millis(indexing_ms),
        reindex_requests: 0,
        reindex_errors: 0,
        reindex_total_time: Duration::ZERO,
    }
}

#[test]
fn averages_divide_the_total_by_the_count() {
    let m = metrics(4, 10, 3, 9);
    assert_eq!(m.average_search_time(), Some(Duration::from_micros(2500)));
    assert_eq!(m.average_indexing_time(), Some(Duration::from_millis(3)));
    let none = metrics(0, 0, 0, 0);
    assert_eq!(none.average_search_time(), None);
    assert_eq!(none.average_indexing_time(), None);
}

#[test]
fn resolve_at_answers_by_the_age_of_the_token() {
    let mut store = TokenStore::new();
    let t = store.issue("alice".to_string());
    assert!(t.0.chars().all(|c| c.is_ascii_hexdigit() && !c.is_ascii_uppercase()));
    assert_eq!(t.0.len(), 64);
    assert_eq!(store.resolve_at(&t, Some(0)), Some("alice".to_string()));
    assert_eq!(store.resolve_at(&t, Some(TOKEN_LIFETIME_NANOS)), Some("alice".to_string()));
    assert_eq!(store.resolve_at(&t, Some(TOKEN_LIFETIME_NANOS + 1)), None);
    assert_eq!(store.resolve_at(&t, None), None);
    assert_eq!(store.resolve_username(&t), Some("alice".to_string()));
    let u = store.issue("bob".to_string());
    store.revoke(&t);
    assert_eq!(store.resolve_at(&t, Some(0)), None);
    assert_eq!(store.resolve_at(&u, Some(0)), Some("bob".to_string()));
}

#[test]
fn retain_recomputes_the_weight_bound() {
    let mut l = PostingList::from_items(vec![
        Posting::with_weight(1, vec![0], 3),
        Posting::with_weight(2, vec![0], 9),
        Posting::with_weight(3, vec![0], 5),
    ]);
    assert_eq!(l.max_weight(), 9);
    l.retain(|p| p.doc_id != 2);
    assert_eq!(l.items().iter().map(|p| p.doc_id).collect::<Vec<_>>(), vec![1, 3]);
    assert_eq!(l.max_weight(), 5);
    l.retain(|_| false);
    assert_eq!(l.max_weight(), 0);
}

#[test]
fn append_keeps_the_larger_weight_bound() {
    let mut a = PostingList::from_items(vec![Posting::with_weight(1, vec![0], 3)]);
    let b = PostingList::from_items(vec![Posting::with_weight(5, vec![1], 7)]);
    a.append(b);
    assert_eq!(a.max_weight(), 7);
    let c = PostingList::from_items(vec![Posting::with_weight(1, vec![2], 4)]);
    a.append(c);
    assert_eq!(a.items().len(), 2);
    assert_eq!(a.max_weight(), 7);
}

#[test]
fn grants_in_sequence_are_all_held() {
    let mut s = PolicyStore::new();
    assert!(!s.role_has_permission("admin", &Permission::Search));
    s.grant("admin", Permission::Search);
    s.grant("reader", Permission::Search);
    s.grant("admin", Permission::Search);
    assert!(s.role_has_permission("admin", &Permission::Search));
    assert!(s.role_has_permission("reader", &Permission::Search));
    assert!(!s.role_has_permission("writer", &Permission::Search));
}

#[test]
fn the_last_written_phase_decides_whether_a_backup_runs() {
    let mut p = BackupProgress::new();
    assert!(!p.is_running());
    assert!(p.try_begin());
    assert!(p.is_running());
    assert!(!p.try_begin());
    assert!(p.is_running());
    p.set_phase(BackupPhase::Complete);
    assert!(!p.is_running());
    p.set_phase(BackupPhase::Running);
    assert!(p.is_running());
}

#[test]
fn index_worker_publishes_at_the_threshold_and_on_deletes() {
    let mut s = IndexWorkerState { docs_since_publish: 0, stats: IndexingStats::new() };
    let mut publishes = 0;
    for _ in 0..99 {
        let (n, p) = index_step(s, IndexEvent::DocumentAdded { ok: true });
        s = n;
        assert!(!p);
    }
    assert_eq!(s.docs_since_publish, 99);
    let (n, p) = index_step(s, IndexEvent::DocumentAdded { ok: false });
    assert!(!p);
    assert_eq!(n, s);
    let (n, p) = index_step(s, IndexEvent::DocumentAdded { ok: true });
    s = n;
    if p {
        publishes += 1;
    }
    assert_eq!(publishes, 1);
    assert_eq!(s.docs_since_publish, 0);
    assert_eq!(s.stats.total_documents_indexed, 100);
    let (n, p) = index_step(s, IndexEvent::Timeout);
    assert!(!p);
    s = n;
    let (n, p) = index_step(s, IndexEvent::SegmentAdded { ok: true, doc_count: 40 });
    assert!(!p);
    s = n;
    assert_eq!(s.docs_since_publish, 40);
    assert_eq!(s.stats.segments_written, 1);
    let (n, p) = index_step(s, IndexEvent::Timeout);
    assert!(p);
    assert_eq!(n.docs_since_publish, 0);
    let (n, p) = index_step(n, IndexEvent::DocumentDeleted { ok: true });
    assert!(p);
    assert_eq!(n.stats.total_documents_deleted, 1);
    let (n, p) = index_step(n, IndexEvent::CompactionInstalled { installed: false });
    assert!(!p);
    let (n, p) = index_step(n, IndexEvent::CompactionInstalled { installed: true });
    assert!(p);
    assert_eq!(n.stats.compactions_completed, 1);
    let (n, p) = index_step(n, IndexEvent::StatsAsked { segment_count: 3, memtable_term_count: 17 });
    assert!(!p);
    assert_eq!((n.stats.segment_count, n.stats.memtable_term_count), (3, 17));
}
