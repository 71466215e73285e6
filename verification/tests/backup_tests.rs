use corelamo::backup::manifest::{
    check_chain, expired_backups, latest_manifest, segment_diff, stale_incrementals,
};
use corelamo::backup::{
    parse_wal_records, BackupError, BackupManifest, BackupPhase, BackupProgress, BackupType, SegmentDiff,
};

fn manifest(id: &str, t: BackupType, start: u64, seg: u32, end: u64, created: u64, parent: Option<&str>) -> BackupManifest {
    BackupManifest {
        backup_id: id.to_string(),
        created_at: created,
        backup_type: t,
        start_offset: start,
        document_count: 0,
        record_count: 0,
        parent_backup_id: parent.map(|p| p.to_string()),
        last_backup_segment: seg,
        last_backup_offset: end,
    }
}

#[test]
fn phases_round_trip_through_numbers() {
    for p in [BackupPhase::Idle, BackupPhase::Running, BackupPhase::Complete, BackupPhase::Failed] {
        assert_eq!(BackupPhase::from_u8(p.as_u8()), p);
    }
    assert_eq!(BackupPhase::from_u8(9), BackupPhase::Idle);
}

#[test]
fn progress_counts_and_runs_once() {
    let mut p = BackupProgress::new();
    assert!(!p.is_running());
    assert!(p.try_begin_at(1000));
    assert!(p.is_running());
    assert!(!p.try_begin_at(2000));
    p.grow_total(100);
    p.add(40);
    p.add(u64::MAX);
    let s = p.snapshot_at(1500);
    assert_eq!(s.phase, BackupPhase::Running);
    assert_eq!(s.bytes_total, 100);
    assert_eq!(s.bytes_done, 39);
    assert_eq!(s.elapsed_ms, Some(500));
    assert_eq!(p.snapshot_at(10).elapsed_ms, Some(0));
    p.set_phase(BackupPhase::Complete);
    assert_eq!(p.snapshot_at(5000).elapsed_ms, None);
    assert!(p.try_begin_at(6000));
    assert_eq!(p.snapshot_at(6000).bytes_total, 0);
}

fn record(offset: u64, payload: &[u8]) -> Vec<u8> {
    let mut out = offset.to_le_bytes().to_vec();
    out.extend_from_slice(&(payload.len() as u32).to_le_bytes());
    out.extend_from_slice(payload);
    out
}

#[test]
fn wal_records_parse_in_order() {
    let mut bytes = record(7, b"abc");
    bytes.extend(record(9, b""));
    bytes.extend(record(u64::MAX, b"z"));
    let r = parse_wal_records(&bytes).unwrap();
    assert_eq!(r, vec![(7, b"abc".to_vec()), (9, vec![]), (u64::MAX, b"z".to_vec())]);
    assert_eq!(parse_wal_records(&[]).unwrap(), vec![]);
}

#[test]
fn wal_records_report_corruption() {
    let mut bytes = record(7, b"abc");
    bytes.extend_from_slice(&[1, 2, 3]);
    match parse_wal_records(&bytes) {
        Err(BackupError::CorruptRecord(m)) => assert_eq!(m, "truncated record header"),
        other => panic!("unexpected {other:?}"),
    }
    let mut short = 5u64.to_le_bytes().to_vec();
    short.extend_from_slice(&10u32.to_le_bytes());
    short.extend_from_slice(b"abc");
    match parse_wal_records(&short) {
        Err(BackupError::CorruptRecord(m)) => {
            assert_eq!(m, "record at offset 5 claims 10 bytes but only 3 remain")
        }
        other => panic!("unexpected {other:?}"),
    }
}

#[test]
fn chains_must_be_contiguous() {
    let full = manifest("f", BackupType::Full, 0, 1, 100, 1, None);
    let inc = manifest("i", BackupType::Incremental, 100, 1, 150, 2, Some("f"));
    assert!(check_chain(&[full.clone(), inc.clone()]).is_ok());
    assert!(check_chain(&[]).is_ok());
    let gap = manifest("g", BackupType::Incremental, 90, 1, 150, 2, Some("f"));
    match check_chain(&[full.clone(), gap]) {
        Err(BackupError::ChainGap { parent_id, parent_end, child_id, child_start }) => {
            assert_eq!((parent_id.as_str(), parent_end, child_id.as_str(), child_start), ("f", 100, "g", 90));
        }
        other => panic!("unexpected {other:?}"),
    }
    let earlier = manifest("e", BackupType::Incremental, 500, 0, 600, 2, Some("f"));
    assert!(check_chain(&[full, earlier]).is_err());
}

#[test]
fn segment_diff_copies_what_is_new() {
    let d = segment_diff(&[(1, 50), (2, 80), (3, 10), (4, 0)], 2, 30);
    assert_eq!(
        d,
        vec![SegmentDiff { id: 2, start: 30, end: 80 }, SegmentDiff { id: 3, start: 0, end: 10 }]
    );
    assert!(segment_diff(&[(2, 30)], 2, 30).is_empty());
}

#[test]
fn stale_and_expired_backups() {
    let all = vec![
        manifest("f", BackupType::Full, 0, 1, 100, 10, None),
        manifest("a", BackupType::Incremental, 100, 1, 150, 20, Some("f")),
        manifest("b", BackupType::Incremental, 150, 1, 200, 30, Some("a")),
    ];
    assert_eq!(stale_incrementals(&all, 150), vec!["b".to_string()]);
    assert_eq!(stale_incrementals(&all, 0), vec!["a".to_string(), "b".to_string()]);
    assert_eq!(expired_backups(&all, 25), vec!["f".to_string(), "a".to_string()]);
    assert_eq!(latest_manifest(&all), Some(2));
    assert_eq!(latest_manifest(&[]), None);
    let tie = vec![all[1].clone(), manifest("c", BackupType::Full, 0, 1, 1, 20, None)];
    assert_eq!(latest_manifest(&tie), Some(1));
}
