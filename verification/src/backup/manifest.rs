use vstd::prelude::*;

verus! {

/// Whether a backup holds everything or only what changed since its parent.
#[derive(Debug, Clone, Copy, PartialEq, Eq, Structural)]
pub enum BackupType {
    Full,
    Incremental,
}

/// What a backup holds and where it stands in the write-ahead log.
#[derive(Debug, Clone)]
pub struct BackupManifest {
    pub backup_id: String,
    pub created_at: u64,
    pub backup_type: BackupType,
    pub start_offset: u64,
    pub document_count: usize,
    pub record_count: usize,
    pub parent_backup_id: Option<String>,
    pub last_backup_segment: u32,
    pub last_backup_offset: u64,
}

/// Why a backup or restore failed, apart from failures of the file system and of parsing JSON.
#[derive(Debug)]
pub enum BackupError {
    BincodeError(String),
    WalError(String),
    CorruptRecord(String),
    NoBackupChain,
    NoBaseBackup,
    ChainGap { parent_id: String, parent_end: u64, child_id: String, child_start: u64 },
}

/// Whether `child` does not continue where `parent` ended: it ends in an earlier segment, or it
/// starts before the parent's end in the same segment.
pub open spec fn leaves_gap(parent: BackupManifest, child: BackupManifest) -> bool {
    child.last_backup_segment < parent.last_backup_segment || (child.last_backup_segment
        == parent.last_backup_segment && child.start_offset < parent.last_backup_offset)
}

/// Checks that each backup of `chain`, oldest first, continues where the one before ended;
/// the first pair that does not is the error.
pub fn check_chain(chain: &[BackupManifest]) -> (r: Result<(), BackupError>)
    ensures
        r is Ok <==> forall|i: int| 0 <= i < chain@.len() - 1 ==> !leaves_gap(#[trigger] chain@[i], chain@[i + 1]),
        r matches Err(e) ==> exists|i: int|
            0 <= i < chain@.len() - 1 && leaves_gap(#[trigger] chain@[i], chain@[i + 1]) && (forall|k: int|
                0 <= k < i ==> !leaves_gap(#[trigger] chain@[k], chain@[k + 1])) && e == (BackupError::ChainGap {
                parent_id: chain@[i].backup_id,
                parent_end: chain@[i].last_backup_offset,
                child_id: chain@[i + 1].backup_id,
                child_start: chain@[i + 1].start_offset,
            }),
{
    if chain.len() == 0 {
        return Ok(());
    }
    let mut i: usize = 0;
    while i < chain.len() - 1
        invariant
            chain@.len() > 0,
            i <= chain@.len() - 1,
            forall|k: int| 0 <= k < i ==> !leaves_gap(#[trigger] chain@[k], chain@[k + 1]),
        decreases chain@.len() - i,
    {
        let parent = &chain[i];
        let child = &chain[i + 1];
        if child.last_backup_segment < parent.last_backup_segment || (child.last_backup_segment
            == parent.last_backup_segment && child.start_offset < parent.last_backup_offset) {
            let e = BackupError::ChainGap {
                parent_id: parent.backup_id.clone(),
                parent_end: parent.last_backup_offset,
                child_id: child.backup_id.clone(),
                child_start: child.start_offset,
            };
            proof {
                assert(leaves_gap(chain@[i as int], chain@[i + 1]));
            }
            return Err(e);
        }
        i += 1;
    }
    Ok(())
}

/// The part of one document segment that a backup must copy: from `start` to `end`.
#[derive(Debug, Clone, Copy, PartialEq, Eq, Structural)]
pub struct SegmentDiff {
    pub id: u32,
    pub start: u64,
    pub end: u64,
}

/// What an incremental backup copies of the segment `(id, len)`, if anything: nothing of a
/// segment before the last one backed up, the rest of that one, and all of a later one.
pub open spec fn diff_of(seg: (u32, u64), last_segment_id: u32, last_segment_offset: u64) -> Option<SegmentDiff> {
    let start = if seg.0 == last_segment_id {
        last_segment_offset
    } else {
        0
    };
    if seg.0 < last_segment_id || seg.1 <= start {
        None
    } else {
        Some(SegmentDiff { id: seg.0, start, end: seg.1 })
    }
}

/// The diffs of `segs`, in order, those with nothing to copy left out.
pub open spec fn diffs_of(segs: Seq<(u32, u64)>, last_segment_id: u32, last_segment_offset: u64) -> Seq<SegmentDiff>
    decreases segs.len(),
{
    if segs.len() == 0 {
        Seq::empty()
    } else {
        let rest = diffs_of(segs.drop_last(), last_segment_id, last_segment_offset);
        match diff_of(segs.last(), last_segment_id, last_segment_offset) {
            Some(d) => rest.push(d),
            None => rest,
        }
    }
}

/// What an incremental backup copies of the segments `(id, length)` since the last backup
/// ended at `last_segment_offset` in segment `last_segment_id`.
pub fn segment_diff(segments: &[(u32, u64)], last_segment_id: u32, last_segment_offset: u64) -> (r: Vec<SegmentDiff>)
    ensures
        r@ == diffs_of(segments@, last_segment_id, last_segment_offset),
{
    let mut out: Vec<SegmentDiff> = Vec::new();
    let mut i: usize = 0;
    while i < segments.len()
        invariant
            i <= segments@.len(),
            out@ == diffs_of(segments@.subrange(0, i as int), last_segment_id, last_segment_offset),
        decreases segments@.len() - i,
    {
        proof {
            assert(segments@.subrange(0, i + 1).drop_last() =~= segments@.subrange(0, i as int));
        }
        let (id, end) = segments[i];
        if id >= last_segment_id {
            let start = if id == last_segment_id {
                last_segment_offset
            } else {
                0
            };
            if end > start {
                out.push(SegmentDiff { id, start, end });
            }
        }
        i += 1;
    }
    assert(segments@.subrange(0, segments@.len() as int) =~= segments@);
    out
}

/// The ids of the incremental backups of `all` that start at or after `restored_end`: they were
/// built on a state that a restore to that point discards.
pub fn stale_incrementals(all: &[BackupManifest], restored_end: u64) -> (r: Vec<String>)
    ensures
        r@.map_values(|s: String| s@) == all@.filter(
            |m: BackupManifest| m.backup_type == BackupType::Incremental && m.start_offset >= restored_end,
        ).map_values(|m: BackupManifest| m.backup_id@),
{
    let ghost p = |m: BackupManifest| m.backup_type == BackupType::Incremental && m.start_offset >= restored_end;
    let mut out: Vec<String> = Vec::new();
    let mut i: usize = 0;
    while i < all.len()
        invariant
            i <= all@.len(),
            p == (|m: BackupManifest| m.backup_type == BackupType::Incremental && m.start_offset >= restored_end),
            out@.map_values(|s: String| s@) == all@.subrange(0, i as int).filter(p).map_values(
                |m: BackupManifest| m.backup_id@,
            ),
        decreases all@.len() - i,
    {
        proof {
            reveal_with_fuel(Seq::<_>::filter, 1);
            assert(all@.subrange(0, i + 1).drop_last() =~= all@.subrange(0, i as int));
        }
        let ghost before = out@;
        if all[i].backup_type == BackupType::Incremental && all[i].start_offset >= restored_end {
            out.push(all[i].backup_id.clone());
            proof {
                assert(out@.map_values(|s: String| s@) =~= before.map_values(|s: String| s@).push(all@[i as int].backup_id@));
            }
        }
        i += 1;
    }
    assert(all@.subrange(0, all@.len() as int) =~= all@);
    out
}

/// The ids of the backups of `all` created before `cutoff_ms`.
pub fn expired_backups(all: &[BackupManifest], cutoff_ms: u64) -> (r: Vec<String>)
    ensures
        r@.map_values(|s: String| s@) == all@.filter(|m: BackupManifest| m.created_at < cutoff_ms).map_values(
            |m: BackupManifest| m.backup_id@,
        ),
{
    let ghost p = |m: BackupManifest| m.created_at < cutoff_ms;
    let mut out: Vec<String> = Vec::new();
    let mut i: usize = 0;
    while i < all.len()
        invariant
            i <= all@.len(),
            p == (|m: BackupManifest| m.created_at < cutoff_ms),
            out@.map_values(|s: String| s@) == all@.subrange(0, i as int).filter(p).map_values(
                |m: BackupManifest| m.backup_id@,
            ),
        decreases all@.len() - i,
    {
        proof {
            reveal_with_fuel(Seq::<_>::filter, 1);
            assert(all@.subrange(0, i + 1).drop_last() =~= all@.subrange(0, i as int));
        }
        let ghost before = out@;
        if all[i].created_at < cutoff_ms {
            out.push(all[i].backup_id.clone());
            proof {
                assert(out@.map_values(|s: String| s@) =~= before.map_values(|s: String| s@).push(all@[i as int].backup_id@));
            }
        }
        i += 1;
    }
    assert(all@.subrange(0, all@.len() as int) =~= all@);
    out
}

/// Where the newest backup of `all` stands: the last of those created latest, as `max_by_key`
/// picks it; `None` where there is none.
pub fn latest_manifest(all: &[BackupManifest]) -> (r: Option<usize>)
    ensures
        all@.len() == 0 <==> r is None,
        r matches Some(i) ==> i < all@.len() && (forall|k: int| 0 <= k < all@.len() ==> all@[k].created_at
            <= all@[i as int].created_at) && (forall|k: int|
            i < k < all@.len() ==> all@[k].created_at < all@[i as int].created_at),
{
    if all.len() == 0 {
        return None;
    }
    let mut best: usize = 0;
    let mut i: usize = 1;
    while i < all.len()
        invariant
            1 <= i <= all@.len(),
            best < i,
            forall|k: int| 0 <= k < i ==> all@[k].created_at <= all@[best as int].created_at,
            forall|k: int| best < k < i ==> all@[k].created_at < all@[best as int].created_at,
        decreases all@.len() - i,
    {
        if all[i].created_at >= all[best].created_at {
            best = i;
        }
        i += 1;
    }
    Some(best)
}

} // verus!
