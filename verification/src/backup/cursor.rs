//! Where the backups of a shard stand: the last backup taken and how far into the document
//! segments it reaches. The files themselves are copied by app/.

use vstd::prelude::*;

use crate::backup::manifest::{latest_manifest, BackupError, BackupManifest, SegmentDiff};

verus! {



/// The text of an optional backup id.
pub open spec fn id_text(id: Option<String>) -> Option<Seq<char>> {
    match id {
        Some(s) => Some(s@),
        None => None,
    }
}

/// Whether the backup at `i` of `all` is the newest: the last of those created latest.
pub open spec fn is_latest(all: Seq<BackupManifest>, i: int) -> bool {
    &&& 0 <= i < all.len()
    &&& forall|k: int| 0 <= k < all.len() ==> all[k].created_at <= all[i].created_at
    &&& forall|k: int| i < k < all.len() ==> all[k].created_at < all[i].created_at
}

/// The last backup taken, and the segment and offset the next incremental backup starts from.
pub struct BackupCursor {
    pub last_backup_id: Option<String>,
    pub last_segment_id: u32,
    pub last_segment_offset: u64,
}

/// A copy of an optional backup id.
fn copy_id(id: &Option<String>) -> (r: Option<String>)
    ensures
        id_text(r) == id_text(*id),
{
    match id {
        Some(s) => Some(s.clone()),
        None => None,
    }
}

impl BackupCursor {
    /// Where a shard without saved state starts: at the end of its newest backup, the last of
    /// those created latest; without any backup, at the given segment and offset.
    pub fn from_backups(all: &[BackupManifest], last_segment_id: u32, last_segment_offset: u64) -> (r: Self)
        ensures
            all@.len() == 0 ==> r.last_backup_id is None && r.last_segment_id == last_segment_id
                && r.last_segment_offset == last_segment_offset,
            all@.len() > 0 ==> exists|i: int|
                #[trigger] is_latest(all@, i) && id_text(r.last_backup_id) == Some(all@[i].backup_id@)
                    && r.last_segment_id == all@[i].last_backup_segment
                    && r.last_segment_offset == all@[i].last_backup_offset,
    {
        match latest_manifest(all) {
            Some(i) => {
                let id = all[i].backup_id.clone();
                let r = BackupCursor {
                    last_backup_id: Some(id),
                    last_segment_id: all[i].last_backup_segment,
                    last_segment_offset: all[i].last_backup_offset,
                };
                assert(is_latest(all@, i as int));
                assert(id_text(r.last_backup_id) == Some(all@[i as int].backup_id@));
                r
            },
            None => BackupCursor { last_backup_id: None, last_segment_id, last_segment_offset },
        }
    }

    /// The id of the last backup taken, if any.
    pub fn latest_backup_id(&self) -> (r: Option<&str>)
        ensures
            match r {
                Some(s) => id_text(self.last_backup_id) == Some(s@),
                None => self.last_backup_id is None,
            },
    {
        match &self.last_backup_id {
            Some(s) => Some(s.as_str()),
            None => None,
        }
    }

    /// Records a full backup `backup_id` that reaches `last_segment_offset`, and gives the
    /// backup before it, whose chain of incrementals is now to be deleted. The segment id is
    /// kept as it was.
    pub fn after_full(&mut self, backup_id: &str, last_segment_offset: u64) -> (r: Option<String>)
        ensures
            id_text(r) == id_text(old(self).last_backup_id),
            id_text(final(self).last_backup_id) == Some(backup_id@),
            final(self).last_segment_offset == last_segment_offset,
            final(self).last_segment_id == old(self).last_segment_id,
    {
        let previous = copy_id(&self.last_backup_id);
        self.last_backup_id = Some(backup_id.to_string());
        self.last_segment_offset = last_segment_offset;
        previous
    }

    /// Where an incremental backup that copies `diffs` ends: in the segment and at the end of
    /// the last diff; `None` when there is nothing to copy; an error when no backup was taken
    /// before to build on.
    pub fn incremental_end(&self, diffs: &[SegmentDiff]) -> (r: Result<Option<(u32, u64)>, BackupError>)
        ensures
            self.last_backup_id is None ==> (r matches Err(e) && e is NoBaseBackup),
            self.last_backup_id is Some && diffs@.len() == 0 ==> (r matches Ok(x) && x is None),
            self.last_backup_id is Some && diffs@.len() > 0 ==> (r matches Ok(x) && x == Some(
                (diffs@.last().id, diffs@.last().end),
            )),
    {
        if self.last_backup_id.is_none() {
            return Err(BackupError::NoBaseBackup);
        }
        if diffs.len() == 0 {
            return Ok(None);
        }
        let last = diffs[diffs.len() - 1];
        Ok(Some((last.id, last.end)))
    }

    /// Records an incremental backup `backup_id` that ends at `offset` in `segment_id`.
    pub fn after_incremental(&mut self, backup_id: &str, segment_id: u32, offset: u64)
        ensures
            id_text(final(self).last_backup_id) == Some(backup_id@),
            final(self).last_segment_id == segment_id,
            final(self).last_segment_offset == offset,
    {
        self.last_segment_id = segment_id;
        self.last_segment_offset = offset;
        self.last_backup_id = Some(backup_id.to_string());
    }

    /// Records a restore of `restored_backup_id`, after which the log is durable up to
    /// `durable_offset`: the next incremental backup starts there. The segment id is kept.
    pub fn after_restore(&mut self, restored_backup_id: &str, durable_offset: u64)
        ensures
            id_text(final(self).last_backup_id) == Some(restored_backup_id@),
            final(self).last_segment_offset == durable_offset,
            final(self).last_segment_id == old(self).last_segment_id,
    {
        self.last_backup_id = Some(restored_backup_id.to_string());
        self.last_segment_offset = durable_offset;
    }
}

} // verus!
