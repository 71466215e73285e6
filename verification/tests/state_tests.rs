use corelamo::auth::access::{allows, check, check_password_change};
use corelamo::auth::{default_policy, AuthError, Permission, PolicyStore, Principal};
use corelamo::backup::cursor::BackupCursor;
use corelamo::backup::manifest::{BackupError, BackupManifest, BackupType, SegmentDiff};
use corelamo::backup::progress::BackupPhase;
use corelamo::database::page_bounds;
use corelamo::indexing::{make_batches, select_compaction, CompactionConfig, IndexRuntimeConfig};
use corelamo::reindex::{eta_wanted, round_eta_seconds, Phase, ReindexProgress};
use corelamo::stats::{DbStats, ShardGauges};
use corelamo::worker::{begin_command, end_command, idle_flags, records_backup, ShardCommandKind, MAX_BATCH};

fn manifest(id: &str, seg: u32, end: u64, created: u64) -> BackupManifest {
    BackupManifest {
        backup_id: id.to_string(),
        created_at: created,
        backup_type: BackupType::Full,
        start_offset: 0,
        document_count: 0,
        record_count: 0,
        parent_backup_id: None,
        last_backup_segment: seg,
        last_backup_offset: end,
    }
}

#[test]
fn roles_decide_what_a_principal_may_do() {
    let policy = default_policy();
    let admin = Principal::new("root").with_role("admin");
    let viewer = Principal::new("vera").with_role("viewer");
    let nobody = Principal::new("nobody");
    assert!(allows(&policy, &admin, Permission::CreateUser));
    assert!(check(&policy, &admin, Permission::DeleteDatabase).is_ok());
    assert!(allows(&policy, &viewer, Permission::Search));
    assert!(!allows(&policy, &nobody, Permission::Search));
    match check(&policy, &viewer, Permission::CreateUser) {
        Err(AuthError::PermissionDenied { user, permission }) => {
            assert_eq!(user, "vera");
            assert_eq!(permission, "CreateUser");
        }
        _ => panic!("the viewer may not create users"),
    }
}

#[test]
fn any_role_of_the_principal_suffices() {
    let mut policy = PolicyStore::new();
    policy.grant("reader", Permission::Search);
    policy.grant("writer", Permission::Insert);
    let both = Principal::new("bo").with_role("reader").with_role("writer");
    assert!(allows(&policy, &both, Permission::Search));
    assert!(allows(&policy, &both, Permission::Insert));
    assert!(!allows(&policy, &both, Permission::Delete));
}

#[test]
fn passwords_are_changed_by_their_owner_or_with_permission() {
    let policy = default_policy();
    let viewer = Principal::new("vera").with_role("viewer");
    let admin = Principal::new("root").with_role("admin");
    assert!(check_password_change(&policy, &viewer, "vera").is_ok());
    assert!(check_password_change(&policy, &viewer, "root").is_err());
    assert!(check_password_change(&policy, &admin, "vera").is_ok());
    assert_eq!(Permission::UpdatePwd.label(), "UpdatePwd");
}

#[test]
fn backup_cursor_follows_full_and_incremental_backups() {
    let mut cursor = BackupCursor::from_backups(&[], 3, 40);
    assert_eq!(cursor.latest_backup_id(), None);
    assert_eq!((cursor.last_segment_id, cursor.last_segment_offset), (3, 40));
    let diffs = [SegmentDiff { id: 3, start: 40, end: 90 }];
    assert!(matches!(cursor.incremental_end(&diffs), Err(BackupError::NoBaseBackup)));

    assert_eq!(cursor.after_full("full-1", 100), None);
    assert_eq!(cursor.latest_backup_id(), Some("full-1"));
    assert_eq!((cursor.last_segment_id, cursor.last_segment_offset), (3, 100));
    assert!(matches!(cursor.incremental_end(&[]), Ok(None)));
    let diffs = [SegmentDiff { id: 3, start: 100, end: 120 }, SegmentDiff { id: 4, start: 0, end: 7 }];
    assert!(matches!(cursor.incremental_end(&diffs), Ok(Some((4, 7)))));

    cursor.after_incremental("inc-1", 4, 7);
    assert_eq!(cursor.latest_backup_id(), Some("inc-1"));
    assert_eq!(cursor.after_full("full-2", 9), Some("inc-1".to_string()));
    cursor.after_restore("full-1", 55);
    assert_eq!(cursor.latest_backup_id(), Some("full-1"));
    assert_eq!((cursor.last_segment_id, cursor.last_segment_offset), (4, 55));
}

#[test]
fn backup_cursor_starts_at_the_newest_backup() {
    let all = [manifest("a", 1, 10, 5), manifest("b", 2, 20, 9), manifest("c", 3, 30, 9), manifest("d", 4, 40, 1)];
    let cursor = BackupCursor::from_backups(&all, 0, 0);
    assert_eq!(cursor.latest_backup_id(), Some("c"));
    assert_eq!((cursor.last_segment_id, cursor.last_segment_offset), (3, 30));
}

#[test]
fn worker_flags_follow_the_commands() {
    let idle = idle_flags();
    assert_eq!(MAX_BATCH, 32);
    let during = begin_command(ShardCommandKind::Clear, idle);
    assert!(during.is_clearing);
    let (after, stop) = end_command(ShardCommandKind::Clear, during, false);
    assert!(!after.is_clearing && !stop);
    let (running, _) = end_command(ShardCommandKind::Start, idle, true);
    assert!(running.is_running);
    let (failed_start, _) = end_command(ShardCommandKind::Start, idle, false);
    assert!(!failed_start.is_running);
    let backing = begin_command(ShardCommandKind::BackupIncremental, running);
    assert!(backing.is_backing_up && backing.is_running);
    let (done, _) = end_command(ShardCommandKind::BackupIncremental, backing, true);
    assert!(!done.is_backing_up && done.is_running);
    let (stopped, stop) = end_command(ShardCommandKind::Shutdown, running, true);
    assert!(!stopped.is_running && stop);
    assert!(begin_command(ShardCommandKind::Restore, idle).is_restoring);
    assert!(records_backup(ShardCommandKind::BackupFull, true, false));
    assert!(!records_backup(ShardCommandKind::BackupIncremental, true, false));
    assert!(records_backup(ShardCommandKind::BackupIncremental, true, true));
    assert!(!records_backup(ShardCommandKind::BackupFull, false, true));
}

#[test]
fn search_pages_skip_and_take() {
    assert_eq!(page_bounds(100, 0, 10), Some((0, 10)));
    assert_eq!(page_bounds(100, 95, 10), Some((95, 100)));
    assert_eq!(page_bounds(5, 5, 10), None);
    assert_eq!(page_bounds(5, 0, 0), None);
    assert_eq!(page_bounds(0, 0, 10), None);
    assert_eq!(page_bounds(usize::MAX, usize::MAX - 1, 10), Some((usize::MAX - 1, usize::MAX)));
}

#[test]
fn last_shard_settles_a_backup() {
    let mut stats = DbStats::new(2);
    assert!(stats.begin_backup(2));
    assert!(!stats.begin_backup(2));
    stats.finish_shard_backup(true);
    assert!(stats.backup.is_running());
    stats.finish_shard_backup(false);
    assert!(!stats.backup.is_running());
    assert_eq!(stats.backup.snapshot_at(0).phase, BackupPhase::Failed);
    assert!(stats.begin_backup(1));
    stats.finish_shard_backup(true);
    assert_eq!(stats.backup.snapshot_at(0).phase, BackupPhase::Complete);
    assert!(stats.begin_backup(3));
    stats.abort_backup();
    assert_eq!(stats.backup_outstanding, 0);
    assert_eq!(stats.backup.snapshot_at(0).phase, BackupPhase::Failed);
}

#[test]
fn request_counters_and_gauge_totals() {
    let mut stats = DbStats::new(3);
    stats.record_search(false, 1_000);
    stats.record_search(true, 2_000);
    stats.record_indexing(false, 5);
    assert_eq!(stats.counters.search_requests, 2);
    assert_eq!(stats.counters.search_errors, 1);
    assert_eq!(stats.counters.search_nanos, 3_000);
    assert_eq!(stats.counters.indexing_requests, 1);
    stats.record_search(false, (1u128 << 64) + 7);
    assert_eq!(stats.counters.search_nanos, 3_007);
    let report = ShardGauges {
        documents: 10,
        segments: 2,
        memtable_terms: 5,
        compaction_enabled: true,
        documents_indexed: 10,
        documents_deleted: 1,
        segments_written: 2,
        compactions_completed: 0,
    };
    stats.set_compaction_enabled(2, true);
    stats.publish(0, report);
    stats.publish(1, report);
    stats.add_documents_indexed(1, 4);
    let t = stats.totals();
    assert_eq!(t.documents, 20);
    assert_eq!(t.segments, 4);
    assert_eq!(t.documents_indexed, 24);
    assert!(t.compaction_enabled);
    assert!(!stats.shards[0].compaction_enabled);
}

#[test]
fn reindex_lifecycle_across_shards() {
    let mut stats = DbStats::new(2);
    assert!(stats.begin_reindex(2));
    assert!(!stats.begin_reindex(2));
    assert_eq!(stats.counters.reindex_requests, 1);
    stats.add_reindex_total(50);
    stats.finish_shard_reindex(true, 10);
    assert_eq!(stats.reindex.phase(), Phase::Reindexing);
    stats.finish_shard_reindex(true, 10);
    assert_eq!(stats.reindex.phase(), Phase::Complete);
    assert!(stats.begin_reindex(1));
    stats.reindex.request_cancel();
    stats.finish_shard_reindex(false, 1);
    assert_eq!(stats.reindex.phase(), Phase::Idle);
    assert_eq!(stats.counters.reindex_errors, 1);
}

#[test]
fn reindex_progress_reports_percent() {
    let mut p = ReindexProgress::new();
    assert!(p.try_begin(200));
    assert!(!p.try_begin(10));
    p.add_at(50, 1_000);
    p.add_at(10, 2_000);
    assert_eq!(p.first_add_ms, Some(1_000));
    let s = p.snapshot(None);
    assert_eq!((s.done, s.total, s.percent), (60, 200, 30));
    p.add_at(500, 3_000);
    let s = p.snapshot(Some(4));
    assert_eq!((s.done, s.percent, s.eta_seconds), (200, 100, Some(4)));
    p.set_phase(Phase::Complete);
    assert_eq!(p.snapshot(None).percent, 100);
    assert_eq!(Phase::CatchUp.as_str(), "catch_up");
    assert!(Phase::Swapping.is_running());
    assert_eq!(Phase::from_u8(Phase::Failed.as_u8()), Phase::Failed);
    assert_eq!(Phase::from_u8(9), Phase::Idle);
}

#[test]
fn eta_is_gated_and_rounded() {
    assert!(!eta_wanted(Phase::Swapping, 50, 100));
    assert!(!eta_wanted(Phase::Reindexing, 1, 100));
    assert!(eta_wanted(Phase::Reindexing, 2, 100));
    assert!(eta_wanted(Phase::CatchUp, u64::MAX - 1, u64::MAX));
    assert!(!eta_wanted(Phase::Reindexing, 100, 100));
    assert_eq!(round_eta_seconds(29), 29);
    assert_eq!(round_eta_seconds(31), 35);
    assert_eq!(round_eta_seconds(300), 300);
    assert_eq!(round_eta_seconds(301), 330);
}

#[test]
fn batches_keep_order_and_size() {
    let batches = make_batches((1..=7).collect::<Vec<u32>>(), 3);
    assert_eq!(batches, vec![vec![1, 2, 3], vec![4, 5, 6], vec![7]]);
    assert!(make_batches(Vec::<u32>::new(), 4).is_empty());
    assert_eq!(make_batches(vec![1, 2], 2), vec![vec![1, 2]]);
}

#[test]
fn compaction_picks_disk_segments() {
    let config = CompactionConfig::default();
    assert_eq!(config.max_segments_per_compaction, 16);
    assert_eq!(select_compaction(&[true, true, true], config), None);
    assert_eq!(select_compaction(&[true, false, true, true], config), Some(vec![0, 2, 3]));
    assert_eq!(select_compaction(&[false, false, true, false], config), None);
    let small = CompactionConfig { max_segments_per_compaction: 2, compact_when_segments_at_least: 1 };
    assert_eq!(select_compaction(&[false, true, true, true], small), Some(vec![1, 2]));
    let runtime = IndexRuntimeConfig::default();
    assert_eq!(runtime.flush_threshold, 100 * 1024 * 1024);
    assert_eq!(runtime.indexing_batch_size, 100_000);
    assert_eq!(runtime.indexing_window_size, 8);
}
